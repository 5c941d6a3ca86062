//! Star networks: one center joined to every other node, and no other edge.
//! The center of a star is its most connected node and its most central one.

use vstd::prelude::*;
use crate::centrality::{closeness, distance_sum, lemma_distance_is_hops, reach_count};
use crate::model::{adjacent, degree, hop_ok, is_distance, joins, lemma_connected_reflexive, lemma_degree_step, touches, within};
use crate::ranking::first_max_below;

verus! {

/// The end of an edge at the center `c` that is not `c`.
pub open spec fn spoke(e: (int, int), c: int) -> int {
    if e.0 == c {
        e.1
    } else {
        e.0
    }
}

/// Some edge leads from the center `c` to `v`.
pub open spec fn is_leaf(edges: Seq<(int, int)>, c: int, v: int) -> bool {
    exists|k: int| 0 <= k < edges.len() && spoke(#[trigger] edges[k], c) == v
}

/// Every edge joins the center `c` to another node, and no two edges lead to
/// the same node.
pub open spec fn spokes_only(edges: Seq<(int, int)>, c: int) -> bool {
    &&& forall|k: int|
        0 <= k < edges.len() ==> touches(#[trigger] edges[k], c) && spoke(edges[k], c) != c
    &&& forall|j: int, k: int|
        0 <= j < k < edges.len() ==> spoke(#[trigger] edges[j], c) != spoke(#[trigger] edges[k], c)
}

/// The graph of `n` nodes is a star with center `c`: its edges are spokes, one
/// to each node but the center.
pub open spec fn is_star(edges: Seq<(int, int)>, n: nat, c: int) -> bool {
    &&& 0 <= c < n
    &&& spokes_only(edges, c)
    &&& forall|v: int| 0 <= v < n && v != c ==> #[trigger] is_leaf(edges, c, v)
}

/// Where every edge touches `c`, the degree of `c` is the number of edges.
pub proof fn lemma_center_degree(edges: Seq<(int, int)>, c: int)
    requires
        forall|k: int| 0 <= k < edges.len() ==> touches(#[trigger] edges[k], c),
    ensures
        degree(edges, c) == edges.len(),
    decreases edges.len(),
{
    lemma_degree_step(edges, c);
    if edges.len() > 0 {
        let front = edges.drop_last();
        assert forall|k: int| 0 <= k < front.len() implies touches(#[trigger] front[k], c) by {
            assert(front[k] == edges[k]);
        }
        lemma_center_degree(front, c);
        assert(touches(edges[edges.len() - 1], c));
    }
}

/// Where no edge touches `v`, the degree of `v` is zero.
pub proof fn lemma_untouched_degree(edges: Seq<(int, int)>, v: int)
    requires
        forall|k: int| 0 <= k < edges.len() ==> !touches(#[trigger] edges[k], v),
    ensures
        degree(edges, v) == 0,
    decreases edges.len(),
{
    lemma_degree_step(edges, v);
    if edges.len() > 0 {
        let front = edges.drop_last();
        assert forall|k: int| 0 <= k < front.len() implies !touches(#[trigger] front[k], v) by {
            assert(front[k] == edges[k]);
        }
        lemma_untouched_degree(front, v);
        assert(!touches(edges[edges.len() - 1], v));
    }
}

/// In a star, a node that is not the center has at most one edge.
pub proof fn lemma_leaf_degree(edges: Seq<(int, int)>, c: int, v: int)
    requires
        spokes_only(edges, c),
        v != c,
    ensures
        degree(edges, v) <= 1,
    decreases edges.len(),
{
    lemma_degree_step(edges, v);
    if edges.len() > 0 {
        let front = edges.drop_last();
        let last = edges[edges.len() - 1];
        assert(spokes_only(front, c)) by {
            assert forall|k: int| 0 <= k < front.len() implies touches(#[trigger] front[k], c)
                && spoke(front[k], c) != c by {
                assert(front[k] == edges[k]);
            }
            assert forall|j: int, k: int| 0 <= j < k < front.len() implies spoke(
                #[trigger] front[j],
                c,
            ) != spoke(#[trigger] front[k], c) by {
                assert(front[j] == edges[j]);
                assert(front[k] == edges[k]);
            }
        }
        assert(touches(last, c));
        if touches(last, v) {
            assert(spoke(last, c) == v);
            assert forall|k: int| 0 <= k < front.len() implies !touches(#[trigger] front[k], v) by {
                assert(front[k] == edges[k]);
                assert(touches(edges[k], c));
                assert(spoke(edges[k], c) != spoke(last, c));
            }
            lemma_untouched_degree(front, v);
        } else {
            lemma_leaf_degree(front, c, v);
        }
    }
}

/// In a star with two or more edges, the first node of greatest degree is the
/// center.
pub proof fn lemma_star_most_connected(edges: Seq<(int, int)>, n: nat, c: int, v: int)
    requires
        is_star(edges, n, c),
        edges.len() >= 2,
        first_max_below(edges, n as int, v),
    ensures
        v == c,
        degree(edges, v) > 0,
{
    lemma_center_degree(edges, c);
    if v != c {
        lemma_leaf_degree(edges, c, v);
        assert(degree(edges, c) <= degree(edges, v));
    }
}

/// Two different nodes that an edge joins are at distance one.
pub proof fn lemma_adjacent_distance(edges: Seq<(int, int)>, a: int, b: int)
    requires
        adjacent(edges, a, b),
        a != b,
    ensures
        is_distance(edges, a, b, 1),
{
    let p = seq![a, b];
    assert(hop_ok(edges, p, 0));
    assert(joins(edges, p, a, b));
    assert(within(edges, a, b, 1));
    assert forall|k: nat| #[trigger] within(edges, a, b, k) implies 1 <= k by {
        if k == 0 {
            let q = choose|q: Seq<int>| #[trigger] joins(edges, q, a, b) && q.len() == k + 1;
            assert(q[0] == a && q[0] == b);
        }
    }
}

/// Two different nodes that no edge joins, with a common neighbour, are at
/// distance two.
pub proof fn lemma_two_hop_distance(edges: Seq<(int, int)>, a: int, m: int, b: int)
    requires
        adjacent(edges, a, m),
        adjacent(edges, m, b),
        !adjacent(edges, a, b),
        a != b,
    ensures
        is_distance(edges, a, b, 2),
{
    let p = seq![a, m, b];
    assert forall|i: int| 0 <= i < p.len() - 1 implies #[trigger] hop_ok(edges, p, i) by {
        if i == 0 {
            assert(p[0] == a && p[1] == m);
        } else {
            assert(p[1] == m && p[2] == b);
        }
    }
    assert(joins(edges, p, a, b));
    assert(within(edges, a, b, 2));
    assert forall|k: nat| #[trigger] within(edges, a, b, k) implies 2 <= k by {
        if k < 2 {
            let q = choose|q: Seq<int>| #[trigger] joins(edges, q, a, b) && q.len() == k + 1;
            if k == 0 {
                assert(q[0] == a && q[0] == b);
            } else {
                assert(hop_ok(edges, q, 0));
                assert(q[0] == a && q[1] == b);
            }
        }
    }
}

/// In a star, the center and each other node are joined by an edge.
pub proof fn lemma_spoke_adjacent(edges: Seq<(int, int)>, n: nat, c: int, v: int)
    requires
        is_star(edges, n, c),
        0 <= v < n,
        v != c,
    ensures
        adjacent(edges, c, v),
        adjacent(edges, v, c),
{
    assert(is_leaf(edges, c, v));
    let k = choose|k: int| 0 <= k < edges.len() && spoke(#[trigger] edges[k], c) == v;
    assert(touches(edges[k], c));
    assert(edges[k] == (c, v) || edges[k] == (v, c));
}

/// In a star, no edge joins two nodes that are not the center.
pub proof fn lemma_leaves_apart(edges: Seq<(int, int)>, c: int, a: int, b: int)
    requires
        spokes_only(edges, c),
        a != c,
        b != c,
    ensures
        !adjacent(edges, a, b),
{
    if adjacent(edges, a, b) {
        let k = choose|k: int|
            0 <= k < edges.len() && (#[trigger] edges[k] == (a, b) || edges[k] == (b, a));
        assert(touches(edges[k], c));
    }
}

/// The center of a star reaches every node, at distance one but for itself.
pub proof fn lemma_center_totals(edges: Seq<(int, int)>, n: nat, c: int, k: int)
    requires
        is_star(edges, n, c),
        0 <= k <= n,
    ensures
        reach_count(edges, c, k) == k,
        distance_sum(edges, c, k) == k - if c < k { 1int } else { 0int },
    decreases k,
{
    if k > 0 {
        lemma_center_totals(edges, n, c, k - 1);
        let v = k - 1;
        if v == c {
            lemma_connected_reflexive(edges, c);
            lemma_distance_is_hops(edges, c, c, 0);
        } else {
            lemma_spoke_adjacent(edges, n, c, v);
            lemma_adjacent_distance(edges, c, v);
            lemma_distance_is_hops(edges, c, v, 1);
        }
    }
}

/// A node of a star that is not the center reaches every node: itself at
/// distance zero, the center at distance one, every other node at distance
/// two.
pub proof fn lemma_leaf_totals(edges: Seq<(int, int)>, n: nat, c: int, l: int, k: int)
    requires
        is_star(edges, n, c),
        0 <= l < n,
        l != c,
        0 <= k <= n,
    ensures
        reach_count(edges, l, k) == k,
        distance_sum(edges, l, k) == 2 * k - (if l < k { 2int } else { 0int }) - (if c < k {
            1int
        } else {
            0int
        }),
    decreases k,
{
    if k > 0 {
        lemma_leaf_totals(edges, n, c, l, k - 1);
        let v = k - 1;
        if v == l {
            lemma_connected_reflexive(edges, l);
            lemma_distance_is_hops(edges, l, l, 0);
        } else if v == c {
            lemma_spoke_adjacent(edges, n, c, l);
            lemma_adjacent_distance(edges, l, c);
            lemma_distance_is_hops(edges, l, c, 1);
        } else {
            lemma_spoke_adjacent(edges, n, c, l);
            lemma_spoke_adjacent(edges, n, c, v);
            lemma_leaves_apart(edges, c, l, v);
            lemma_two_hop_distance(edges, l, c, v);
            lemma_distance_is_hops(edges, l, v, 2);
        }
    }
}

/// In a star of three or more nodes, the closeness of the center is strictly
/// greater than that of any other node: with `n` nodes the center scores
/// `n / (n - 1)` and every other node `n / (2n - 3)`.
pub proof fn lemma_star_center_is_closest(edges: Seq<(int, int)>, n: nat, c: int, l: int)
    requires
        is_star(edges, n, c),
        n >= 3,
        0 <= l < n,
        l != c,
    ensures
        closeness(edges, n, c) == (n, (n - 1) as nat),
        closeness(edges, n, l) == (n, (2 * n - 3) as nat),
        closeness(edges, n, c).0 * closeness(edges, n, l).1 > closeness(edges, n, l).0 * closeness(
            edges,
            n,
            c,
        ).1,
{
    lemma_center_totals(edges, n, c, n as int);
    lemma_leaf_totals(edges, n, c, l, n as int);
    assert(n * (2 * n - 3) > n * (n - 1)) by (nonlinear_arith)
        requires
            n >= 3,
    ;
}

} // verus!
