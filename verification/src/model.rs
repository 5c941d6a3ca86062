//! The mathematical model of a route network: a sequence of node labels and a
//! sequence of undirected edges, each a pair of node indices.

use vstd::prelude::*;

verus! {

/// Whether edge `e` has `v` as one of its ends.
pub open spec fn touches(e: (int, int), v: int) -> bool {
    e.0 == v || e.1 == v
}

/// Number of edges with an end at `v`. Parallel edges count separately, a
/// loop at `v` counts once.
pub open spec fn degree(edges: Seq<(int, int)>, v: int) -> nat {
    edges.filter(|e: (int, int)| touches(e, v)).len()
}

/// The degree of a node, edge by edge: the last edge adds one where it touches
/// the node.
pub proof fn lemma_degree_step(edges: Seq<(int, int)>, v: int)
    ensures
        degree(edges, v) == if edges.len() == 0 {
            0
        } else {
            degree(edges.drop_last(), v) + if touches(edges.last(), v) { 1nat } else { 0nat }
        },
{
    reveal(Seq::filter);
}

/// Some edge joins `u` and `v`, in either direction.
pub open spec fn adjacent(edges: Seq<(int, int)>, u: int, v: int) -> bool {
    exists|k: int| 0 <= k < edges.len() && (#[trigger] edges[k] == (u, v) || edges[k] == (v, u))
}

/// Position `i` of `p` and its successor are adjacent.
pub open spec fn hop_ok(edges: Seq<(int, int)>, p: Seq<int>, i: int) -> bool {
    adjacent(edges, p[i], p[i + 1])
}

/// `p` is a walk from `a` to `b`: it starts at `a`, ends at `b`, and every
/// two consecutive nodes are adjacent. A single node is a walk to itself.
pub open spec fn joins(edges: Seq<(int, int)>, p: Seq<int>, a: int, b: int) -> bool {
    &&& p.len() >= 1
    &&& p[0] == a
    &&& p[p.len() - 1] == b
    &&& forall|i: int| 0 <= i < p.len() - 1 ==> #[trigger] hop_ok(edges, p, i)
}

/// Some walk leads from `a` to `b`.
pub open spec fn connected(edges: Seq<(int, int)>, a: int, b: int) -> bool {
    exists|p: Seq<int>| joins(edges, p, a, b)
}

/// Some walk of exactly `d` edges leads from `a` to `b`.
pub open spec fn within(edges: Seq<(int, int)>, a: int, b: int, d: nat) -> bool {
    exists|p: Seq<int>| #[trigger] joins(edges, p, a, b) && p.len() == d + 1
}

/// `d` is the least number of edges on a walk from `a` to `b`.
pub open spec fn is_distance(edges: Seq<(int, int)>, a: int, b: int, d: nat) -> bool {
    &&& within(edges, a, b, d)
    &&& forall|k: nat| #[trigger] within(edges, a, b, k) ==> d <= k
}

/// The least number of edges on a walk from `a` to `b`, where one exists.
pub open spec fn hops(edges: Seq<(int, int)>, a: int, b: int) -> nat {
    choose|d: nat| is_distance(edges, a, b, d)
}

/// The edges that have no end at `v`, in their order.
pub open spec fn without_node(edges: Seq<(int, int)>, v: int) -> Seq<(int, int)> {
    edges.filter(|e: (int, int)| !touches(e, v))
}

/// `t` lists, in any order and each once, the nodes below `n` that a walk from
/// `src` reaches, each with its distance from `src`.
pub open spec fn is_distance_table(
    edges: Seq<(int, int)>,
    n: nat,
    src: int,
    t: Seq<(usize, u64)>,
) -> bool {
    &&& forall|i: int, j: int| 0 <= i < j < t.len() ==> (#[trigger] t[i]).0 != (#[trigger] t[j]).0
    &&& forall|i: int|
        0 <= i < t.len() ==> (#[trigger] t[i]).0 < n && is_distance(
            edges,
            src,
            t[i].0 as int,
            t[i].1 as nat,
        )
    &&& forall|v: int|
        0 <= v < n && #[trigger] connected(edges, src, v) ==> exists|i: int|
            0 <= i < t.len() && (#[trigger] t[i]).0 == v
}

/// Both ends of every edge are among the first `n` nodes.
pub open spec fn ends_in_range(edges: Seq<(int, int)>, n: int) -> bool {
    forall|k: int|
        0 <= k < edges.len() ==> 0 <= (#[trigger] edges[k]).0 < n && 0 <= edges[k].1 < n
}

/// No label occurs at two indices.
pub open spec fn distinct_labels(labels: Seq<Seq<char>>) -> bool {
    forall|i: int, j: int| 0 <= i < j < labels.len() ==> labels[i] != labels[j]
}

/// `i` is the index that `label` resolves to: the last node that carries it.
pub open spec fn resolves_to(labels: Seq<Seq<char>>, label: Seq<char>, i: int) -> bool {
    &&& 0 <= i < labels.len()
    &&& labels[i] == label
    &&& forall|j: int| i < j < labels.len() ==> labels[j] != label
}

/// Some node carries `label`.
pub open spec fn has_label(labels: Seq<Seq<char>>, label: Seq<char>) -> bool {
    exists|i: int| 0 <= i < labels.len() && labels[i] == label
}

/// Both labels resolve to nodes, and a walk leads from one to the other.
pub open spec fn labels_connected(
    labels: Seq<Seq<char>>,
    edges: Seq<(int, int)>,
    a: Seq<char>,
    b: Seq<char>,
) -> bool {
    exists|i: int, j: int|
        #![trigger resolves_to(labels, a, i), resolves_to(labels, b, j)]
        resolves_to(labels, a, i) && resolves_to(labels, b, j) && connected(edges, i, j)
}

/// Every node is connected to itself.
pub proof fn lemma_connected_reflexive(edges: Seq<(int, int)>, a: int)
    ensures
        connected(edges, a, a),
        is_distance(edges, a, a, 0),
{
    let p = seq![a];
    assert(joins(edges, p, a, a));
    assert forall|k: nat| #[trigger] within(edges, a, a, k) implies 0 <= k by {}
}

/// The reverse of a walk from `a` to `b` is a walk from `b` to `a`.
pub proof fn lemma_reverse_walk(edges: Seq<(int, int)>, p: Seq<int>, a: int, b: int)
    requires
        joins(edges, p, a, b),
    ensures
        joins(edges, Seq::new(p.len(), |i: int| p[p.len() - 1 - i]), b, a),
{
    let q = Seq::new(p.len(), |i: int| p[p.len() - 1 - i]);
    assert forall|i: int| 0 <= i < q.len() - 1 implies #[trigger] hop_ok(edges, q, i) by {
        let m = p.len() - 2 - i;
        assert(hop_ok(edges, p, m));
        assert(q[i] == p[m + 1]);
        assert(q[i + 1] == p[m]);
        let k = choose|k: int| 0 <= k < edges.len() && (#[trigger] edges[k] == (p[m], p[m + 1]) || edges[k] == (p[m + 1], p[m]));
        assert(edges[k] == (q[i], q[i + 1]) || edges[k] == (q[i + 1], q[i]));
    }
}

/// Connectivity does not depend on the direction of the question.
pub proof fn lemma_connected_symmetric(edges: Seq<(int, int)>, a: int, b: int)
    ensures
        connected(edges, a, b) == connected(edges, b, a),
{
    if connected(edges, a, b) {
        let p = choose|p: Seq<int>| joins(edges, p, a, b);
        lemma_reverse_walk(edges, p, a, b);
    }
    if connected(edges, b, a) {
        let p = choose|p: Seq<int>| joins(edges, p, b, a);
        lemma_reverse_walk(edges, p, b, a);
    }
}

/// A label that some node carries is connected to itself.
pub proof fn lemma_labels_connected_reflexive(
    labels: Seq<Seq<char>>,
    edges: Seq<(int, int)>,
    a: Seq<char>,
)
    requires
        has_label(labels, a),
    ensures
        labels_connected(labels, edges, a, a),
{
    let i = lemma_resolves(labels, a);
    lemma_connected_reflexive(edges, i);
}

/// A label that some node carries resolves to an index.
pub proof fn lemma_resolves(labels: Seq<Seq<char>>, a: Seq<char>) -> (i: int)
    requires
        has_label(labels, a),
    ensures
        resolves_to(labels, a, i),
    decreases labels.len(),
{
    let last = labels.len() - 1;
    if labels[last] == a {
        last
    } else {
        let w = choose|i: int| 0 <= i < labels.len() && labels[i] == a;
        let front = labels.drop_last();
        assert(front[w] == a);
        let i = lemma_resolves(front, a);
        assert forall|j: int| i < j < labels.len() implies labels[j] != a by {
            if j < last {
                assert(front[j] == labels[j]);
            }
        }
        i
    }
}

/// Whether two labels are connected does not depend on their order.
pub proof fn lemma_labels_connected_symmetric(
    labels: Seq<Seq<char>>,
    edges: Seq<(int, int)>,
    a: Seq<char>,
    b: Seq<char>,
)
    ensures
        labels_connected(labels, edges, a, b) == labels_connected(labels, edges, b, a),
{
    if labels_connected(labels, edges, a, b) {
        let (i, j) = choose|i: int, j: int|
            #![trigger resolves_to(labels, a, i), resolves_to(labels, b, j)]
            resolves_to(labels, a, i) && resolves_to(labels, b, j) && connected(edges, i, j);
        lemma_connected_symmetric(edges, i, j);
        assert(resolves_to(labels, b, j) && resolves_to(labels, a, i));
    }
    if labels_connected(labels, edges, b, a) {
        let (i, j) = choose|i: int, j: int|
            #![trigger resolves_to(labels, b, i), resolves_to(labels, a, j)]
            resolves_to(labels, b, i) && resolves_to(labels, a, j) && connected(edges, i, j);
        lemma_connected_symmetric(edges, i, j);
        assert(resolves_to(labels, a, j) && resolves_to(labels, b, i));
    }
}

} // verus!
