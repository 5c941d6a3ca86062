//! Closeness centrality: how few hops separate a node from the nodes it can
//! reach.

use vstd::prelude::*;
use crate::graph::FlightGraph;
use crate::model::{connected, hops, is_distance, is_distance_table, joins, hop_ok, lemma_connected_reflexive, touches, within};
use crate::ratio::Ratio;
use crate::store::{count_nodes, label_at, unit_distances};

verus! {

/// The cost of one edge in a shortest-path search: every edge is one hop.
pub fn unit_cost() -> (c: u64)
    ensures
        c == 1,
{
    1
}

/// How many of the first `k` nodes a walk from `src` reaches; `src` itself is
/// one of them.
pub open spec fn reach_count(edges: Seq<(int, int)>, src: int, k: int) -> nat
    decreases k,
{
    if k <= 0 {
        0
    } else {
        reach_count(edges, src, k - 1) + if connected(edges, src, k - 1) { 1nat } else { 0nat }
    }
}

/// The distances from `src` to those of the first `k` nodes that it reaches,
/// added up.
pub open spec fn distance_sum(edges: Seq<(int, int)>, src: int, k: int) -> nat
    decreases k,
{
    if k <= 0 {
        0
    } else {
        distance_sum(edges, src, k - 1) + if connected(edges, src, k - 1) {
            hops(edges, src, k - 1)
        } else {
            0nat
        }
    }
}

/// The score of a node that reaches `count` nodes at distances that add up to
/// `sum`, as numerator and denominator: `count / sum`, or zero where `sum` is
/// zero.
pub open spec fn score(count: nat, sum: nat) -> (nat, nat) {
    if sum > 0 {
        (count, sum)
    } else {
        (0, 1)
    }
}

/// The closeness of node `src` in a graph of `n` nodes: the number of nodes it
/// reaches over the sum of their distances, or zero where it reaches none but
/// itself.
pub open spec fn closeness(edges: Seq<(int, int)>, n: nat, src: int) -> (nat, nat) {
    score(reach_count(edges, src, n as int), distance_sum(edges, src, n as int))
}

/// The distance that a table gives for node `v`: that of its last entry for
/// `v`, if it has one.
pub open spec fn lookup(t: Seq<(usize, u64)>, v: int) -> Option<u64>
    decreases t.len(),
{
    if t.len() == 0 {
        None
    } else if t.last().0 == v {
        Some(t.last().1)
    } else {
        lookup(t.drop_last(), v)
    }
}

/// How many of the first `k` nodes have an entry in the table.
pub open spec fn table_count(t: Seq<(usize, u64)>, k: int) -> nat
    decreases k,
{
    if k <= 0 {
        0
    } else {
        table_count(t, k - 1) + if lookup(t, k - 1) is Some { 1nat } else { 0nat }
    }
}

/// The distances that the table gives for the first `k` nodes, added up.
pub open spec fn table_sum(t: Seq<(usize, u64)>, k: int) -> nat
    decreases k,
{
    if k <= 0 {
        0
    } else {
        table_sum(t, k - 1) + match lookup(t, k - 1) {
            Some(d) => d as nat,
            None => 0nat,
        }
    }
}

/// The closeness score that follows from a table of distances over `n` nodes:
/// the number of nodes with an entry over the sum of their distances, or zero
/// where that sum is zero. Entries for nodes from `n` on do not count.
pub fn closeness_of_table(t: &Vec<(usize, u64)>, n: usize) -> (r: Ratio)
    ensures
        (r.num as nat, r.den as nat) == score(table_count(t@, n as int), table_sum(t@, n as int)),
        r.den > 0,
{
    let mut slots: Vec<Option<u64>> = Vec::new();
    while slots.len() < n
        invariant
            slots.len() <= n,
            forall|v: int| 0 <= v < slots.len() ==> slots[v] is None,
        decreases n - slots.len(),
    {
        slots.push(None);
    }
    let mut i: usize = 0;
    while i < t.len()
        invariant
            i <= t.len(),
            slots.len() == n,
            forall|v: int| 0 <= v < n ==> slots[v] == lookup(t@.take(i as int), v),
        decreases t.len() - i,
    {
        let (key, dist) = t[i];
        proof {
            let now = t@.take(i + 1);
            assert(now.last() == t@[i as int]);
            assert(now.drop_last() == t@.take(i as int));
        }
        if key < n {
            slots.set(key, Some(dist));
        }
        i += 1;
    }
    proof {
        assert(t@.take(t.len() as int) == t@);
    }
    let mut count: u128 = 0;
    let mut sum: u128 = 0;
    let mut v: usize = 0;
    while v < n
        invariant
            v <= n,
            slots.len() == n,
            forall|u: int| 0 <= u < n ==> slots[u] == lookup(t@, u),
            count == table_count(t@, v as int),
            sum == table_sum(t@, v as int),
            count <= v,
            sum <= v * 0xffff_ffff_ffff_ffff,
        decreases n - v,
    {
        match slots[v] {
            Some(d) => {
                count += 1;
                sum += d as u128;
            },
            None => {},
        }
        v += 1;
    }
    if sum > 0 {
        Ratio { num: count, den: sum }
    } else {
        Ratio { num: 0, den: 1 }
    }
}

/// The entry that a lookup found is in the table.
pub proof fn lemma_lookup_found(t: Seq<(usize, u64)>, v: int)
    requires
        lookup(t, v) is Some,
    ensures
        exists|i: int| 0 <= i < t.len() && (#[trigger] t[i]).0 == v && t[i].1 == lookup(t, v).unwrap(),
    decreases t.len(),
{
    if t.last().0 == v {
        assert(t[t.len() - 1].0 == v);
    } else {
        lemma_lookup_found(t.drop_last(), v);
        let i = choose|i: int|
            0 <= i < t.drop_last().len() && (#[trigger] t.drop_last()[i]).0 == v && t.drop_last()[i].1
                == lookup(t.drop_last(), v).unwrap();
        assert(t[i] == t.drop_last()[i]);
    }
}

/// A node that a lookup does not find has no entry in the table.
pub proof fn lemma_lookup_missing(t: Seq<(usize, u64)>, v: int)
    requires
        lookup(t, v) is None,
    ensures
        forall|i: int| 0 <= i < t.len() ==> (#[trigger] t[i]).0 != v,
    decreases t.len(),
{
    if t.len() > 0 {
        lemma_lookup_missing(t.drop_last(), v);
        assert forall|i: int| 0 <= i < t.len() implies (#[trigger] t[i]).0 != v by {
            if i < t.len() - 1 {
                assert(t[i] == t.drop_last()[i]);
            }
        }
    }
}

/// A least walk length is the distance, and its ends are connected.
pub proof fn lemma_distance_is_hops(edges: Seq<(int, int)>, a: int, b: int, d: nat)
    requires
        is_distance(edges, a, b, d),
    ensures
        connected(edges, a, b),
        hops(edges, a, b) == d,
{
    let h = hops(edges, a, b);
    assert(is_distance(edges, a, b, h));
    assert(within(edges, a, b, d));
    assert(within(edges, a, b, h));
}

/// A table of the distances from `src` has an entry for exactly the nodes
/// that `src` reaches, and gives each its distance.
pub proof fn lemma_table_entry(
    edges: Seq<(int, int)>,
    n: nat,
    src: int,
    t: Seq<(usize, u64)>,
    v: int,
)
    requires
        is_distance_table(edges, n, src, t),
        0 <= v < n,
    ensures
        lookup(t, v) is Some <==> connected(edges, src, v),
        lookup(t, v) is Some ==> lookup(t, v).unwrap() == hops(edges, src, v),
{
    if lookup(t, v) is Some {
        lemma_lookup_found(t, v);
        let i = choose|i: int|
            0 <= i < t.len() && (#[trigger] t[i]).0 == v && t[i].1 == lookup(t, v).unwrap();
        lemma_distance_is_hops(edges, src, t[i].0 as int, t[i].1 as nat);
    } else {
        lemma_lookup_missing(t, v);
    }
}

/// The counts and sums of a table of the distances from `src` are those of
/// the nodes that `src` reaches.
pub proof fn lemma_table_totals(
    edges: Seq<(int, int)>,
    n: nat,
    src: int,
    t: Seq<(usize, u64)>,
    k: int,
)
    requires
        is_distance_table(edges, n, src, t),
        k <= n,
    ensures
        table_count(t, k) == reach_count(edges, src, k),
        table_sum(t, k) == distance_sum(edges, src, k),
    decreases k,
{
    if k > 0 {
        lemma_table_totals(edges, n, src, t, k - 1);
        lemma_table_entry(edges, n, src, t, k - 1);
    }
}

/// A node without an edge reaches no node but itself.
pub proof fn lemma_isolated_reaches_itself(edges: Seq<(int, int)>, src: int, v: int)
    requires
        forall|k: int| 0 <= k < edges.len() ==> !touches(#[trigger] edges[k], src),
        connected(edges, src, v),
    ensures
        v == src,
{
    let p = choose|p: Seq<int>| joins(edges, p, src, v);
    if p.len() > 1 {
        assert(hop_ok(edges, p, 0));
    }
}

/// The distances from a node without an edge add up to zero.
pub proof fn lemma_isolated_sum(edges: Seq<(int, int)>, src: int, k: int)
    requires
        forall|k: int| 0 <= k < edges.len() ==> !touches(#[trigger] edges[k], src),
    ensures
        distance_sum(edges, src, k) == 0,
    decreases k,
{
    if k > 0 {
        lemma_isolated_sum(edges, src, k - 1);
        if connected(edges, src, k - 1) {
            lemma_isolated_reaches_itself(edges, src, k - 1);
            lemma_connected_reflexive(edges, src);
            lemma_distance_is_hops(edges, src, src, 0);
        }
    }
}

/// A node without an edge has a closeness of exactly zero.
pub proof fn lemma_isolated_closeness(edges: Seq<(int, int)>, n: nat, src: int)
    requires
        forall|k: int| 0 <= k < edges.len() ==> !touches(#[trigger] edges[k], src),
    ensures
        closeness(edges, n, src) == (0nat, 1nat),
{
    lemma_isolated_sum(edges, src, n as int);
}

/// The closeness of the first `limit` nodes, or of all where there are fewer,
/// each with its label, in insertion order.
pub fn centrality_of_first(flight_graph: &FlightGraph, limit: usize) -> (r: Vec<(String, Ratio)>)
    ensures
        r.len() == if limit < flight_graph.labels().len() {
            limit as nat
        } else {
            flight_graph.labels().len()
        },
        forall|i: int|
            0 <= i < r.len() ==> {
                &&& (#[trigger] r[i]).0@ == flight_graph.labels()[i]
                &&& (r[i].1.num as nat, r[i].1.den as nat) == closeness(
                    flight_graph.edges(),
                    flight_graph.labels().len(),
                    i,
                )
                &&& r[i].1.den > 0
            },
{
    let n = count_nodes(&flight_graph.graph);
    let stop = if limit < n { limit } else { n };
    let mut r: Vec<(String, Ratio)> = Vec::new();
    let mut node: usize = 0;
    while node < stop
        invariant
            node <= stop <= n,
            n == flight_graph.labels().len(),
            r.len() == node,
            forall|i: int|
                0 <= i < r.len() ==> {
                    &&& (#[trigger] r[i]).0@ == flight_graph.labels()[i]
                    &&& (r[i].1.num as nat, r[i].1.den as nat) == closeness(
                        flight_graph.edges(),
                        n as nat,
                        i,
                    )
                    &&& r[i].1.den > 0
                },
        decreases stop - node,
    {
        let table = unit_distances(&flight_graph.graph, node);
        let ratio = closeness_of_table(&table, n);
        proof {
            lemma_table_totals(flight_graph.edges(), n as nat, node as int, table@, n as int);
        }
        let label = label_at(&flight_graph.graph, node);
        r.push((label, ratio));
        node += 1;
    }
    r
}

/// The closeness of every node, each with its label, in insertion order.
pub fn compute_centrality(flight_graph: &FlightGraph) -> (r: Vec<(String, Ratio)>)
    ensures
        r.len() == flight_graph.labels().len(),
        forall|i: int|
            0 <= i < r.len() ==> {
                &&& (#[trigger] r[i]).0@ == flight_graph.labels()[i]
                &&& (r[i].1.num as nat, r[i].1.den as nat) == closeness(
                    flight_graph.edges(),
                    flight_graph.labels().len(),
                    i,
                )
                &&& r[i].1.den > 0
            },
{
    let n = count_nodes(&flight_graph.graph);
    centrality_of_first(flight_graph, n)
}

/// The closeness of the first five nodes, a preview of `compute_centrality`.
pub fn preview_centrality(flight_graph: &FlightGraph) -> (r: Vec<(String, Ratio)>)
    ensures
        r.len() == if 5 < flight_graph.labels().len() {
            5
        } else {
            flight_graph.labels().len()
        },
        forall|i: int|
            0 <= i < r.len() ==> {
                &&& (#[trigger] r[i]).0@ == flight_graph.labels()[i]
                &&& (r[i].1.num as nat, r[i].1.den as nat) == closeness(
                    flight_graph.edges(),
                    flight_graph.labels().len(),
                    i,
                )
                &&& r[i].1.den > 0
            },
{
    centrality_of_first(flight_graph, 5)
}

} // verus!
