//! The order of the nodes by their number of connections.

use vstd::prelude::*;
use crate::densest::{alive_count, lemma_full_count};
use crate::graph::FlightGraph;
use crate::model::degree;
use crate::store::{count_neighbors, count_nodes, label_at};

verus! {

/// Among the first `k` nodes, none has a greater degree than `v`, and every
/// node before `v` has a smaller one.
pub open spec fn first_max_below(edges: Seq<(int, int)>, k: int, v: int) -> bool {
    &&& 0 <= v < k
    &&& forall|u: int|
        0 <= u < k ==> (#[trigger] degree(edges, u)) <= degree(edges, v) && (u < v ==> degree(
            edges,
            u,
        ) < degree(edges, v))
}

/// Node `u` comes before node `v` in the ranking: it has the greater degree,
/// or the same degree and the smaller index.
pub open spec fn ranks_before(edges: Seq<(int, int)>, u: int, v: int) -> bool {
    degree(edges, u) > degree(edges, v) || (degree(edges, u) == degree(edges, v) && u < v)
}

/// `order` holds the first nodes of the ranking of `n` nodes: its nodes are in
/// ranking order, and each comes before every node that it leaves out.
pub open spec fn is_ranking(edges: Seq<(int, int)>, n: int, order: Seq<int>) -> bool {
    &&& forall|i: int| 0 <= i < order.len() ==> 0 <= #[trigger] order[i] < n
    &&& forall|i: int, j: int|
        0 <= i < j < order.len() ==> ranks_before(edges, #[trigger] order[i], #[trigger] order[j])
    &&& forall|v: int, i: int|
        0 <= v < n && 0 <= i < order.len() && !order.contains(v) ==> #[trigger] ranks_before(
            edges,
            order[i],
            v,
        )
}

/// A mask of which nodes are still free, without a free node among the first
/// `k`, counts none there.
pub proof fn lemma_none_free(free: Seq<bool>, k: int)
    requires
        k <= free.len(),
        forall|v: int| 0 <= v < k ==> !free[v],
    ensures
        alive_count(free, k) == 0,
    decreases k,
{
    if k > 0 {
        lemma_none_free(free, k - 1);
    }
}

/// Taking a free node lowers the count of free nodes by one.
pub proof fn lemma_take_one(free: Seq<bool>, k: int, p: int)
    requires
        0 <= p < free.len(),
        k <= free.len(),
        free[p],
    ensures
        alive_count(free.update(p, false), k) == alive_count(free, k) - if p < k { 1int } else { 0int },
    decreases k,
{
    if k > 0 {
        lemma_take_one(free, k - 1, p);
    }
}

/// The nodes of a vector of indices, as mathematical integers.
pub open spec fn as_nodes(v: Seq<usize>) -> Seq<int> {
    v.map_values(|i: usize| i as int)
}

impl FlightGraph {
    /// The degree of every node, in insertion order.
    pub fn neighbor_counts(&self) -> (r: Vec<usize>)
        ensures
            r.len() == self.labels().len(),
            forall|v: int| 0 <= v < r.len() ==> r[v] == degree(self.edges(), v),
    {
        let n = count_nodes(&self.graph);
        let mut r: Vec<usize> = Vec::new();
        while r.len() < n
            invariant
                r.len() <= n,
                n == self.labels().len(),
                forall|v: int| 0 <= v < r.len() ==> r[v] == degree(self.edges(), v),
            decreases n - r.len(),
        {
            let d = count_neighbors(&self.graph, r.len());
            r.push(d);
        }
        r
    }

    /// The first `top_n` nodes of the ranking by descending degree, or all
    /// nodes where there are fewer. Nodes of equal degree keep their insertion
    /// order.
    pub fn top_connected_nodes(&self, top_n: usize) -> (r: Vec<usize>)
        ensures
            r.len() == if top_n < self.labels().len() {
                top_n as nat
            } else {
                self.labels().len()
            },
            is_ranking(self.edges(), self.labels().len() as int, as_nodes(r@)),
    {
        let n = count_nodes(&self.graph);
        let stop = if top_n < n { top_n } else { n };
        let degs = self.neighbor_counts();
        let ghost edges = self.edges();
        let mut free: Vec<bool> = Vec::new();
        while free.len() < n
            invariant
                free.len() <= n,
                forall|v: int| 0 <= v < free.len() ==> free[v],
            decreases n - free.len(),
        {
            free.push(true);
        }
        proof {
            lemma_full_count(free@, n as int);
        }
        let mut r: Vec<usize> = Vec::new();
        while r.len() < stop
            invariant
                stop <= n,
                n == self.labels().len(),
                edges == self.edges(),
                free.len() == n,
                degs.len() == n,
                forall|v: int| 0 <= v < n ==> degs[v] == degree(edges, v),
                r.len() <= stop,
                alive_count(free@, n as int) == n - r.len(),
                forall|i: int| 0 <= i < r.len() ==> (#[trigger] r[i]) < n && !free[r[i] as int],
                forall|v: int|
                    0 <= v < n && !(#[trigger] free[v]) ==> exists|i: int|
                        0 <= i < r.len() && #[trigger] r[i] == v,
                forall|i: int, j: int|
                    0 <= i < j < r.len() ==> ranks_before(
                        edges,
                        (#[trigger] r[i]) as int,
                        (#[trigger] r[j]) as int,
                    ),
                forall|v: int, i: int|
                    0 <= v < n && 0 <= i < r.len() && #[trigger] free[v] ==> ranks_before(
                        edges,
                        (#[trigger] r[i]) as int,
                        v,
                    ),
            decreases stop - r.len(),
        {
            let mut pick: Option<usize> = None;
            let mut top: usize = 0;
            let mut v: usize = 0;
            while v < n
                invariant
                    v <= n,
                    free.len() == n,
                    degs.len() == n,
                    forall|u: int| 0 <= u < n ==> degs[u] == degree(edges, u),
                    match pick {
                        Some(p) => p < v && free[p as int] && top == degs[p as int] && forall|u: int|
                            0 <= u < v && #[trigger] free[u] && u != p ==> ranks_before(
                                edges,
                                p as int,
                                u,
                            ),
                        None => forall|u: int| 0 <= u < v ==> !free[u],
                    },
                decreases n - v,
            {
                if free[v] {
                    let better = match pick {
                        Some(_) => degs[v] > top,
                        None => true,
                    };
                    if better {
                        pick = Some(v);
                        top = degs[v];
                    }
                }
                v += 1;
            }
            match pick {
                None => {
                    proof {
                        lemma_none_free(free@, n as int);
                    }
                    return r;
                },
                Some(p) => {
                    let ghost before = r@;
                    let ghost free_before = free@;
                    proof {
                        lemma_take_one(free@, n as int, p as int);
                    }
                    free.set(p, false);
                    r.push(p);
                    proof {
                        assert forall|u: int| 0 <= u < n && !(#[trigger] free[u]) implies exists|i: int|
                            0 <= i < r.len() && #[trigger] r[i] == u by {
                            if u == p {
                                assert(r[r.len() - 1] == u);
                            } else {
                                assert(!free_before[u]);
                                let i = choose|i: int| 0 <= i < before.len() && #[trigger] before[i] == u;
                                assert(r[i] == u);
                            }
                        }
                        assert forall|i: int, j: int| 0 <= i < j < r.len() implies ranks_before(
                            edges,
                            (#[trigger] r[i]) as int,
                            (#[trigger] r[j]) as int,
                        ) by {
                            assert(r[i] == before[i]);
                            if j < before.len() {
                                assert(r[j] == before[j]);
                            } else {
                                assert(free_before[p as int]);
                            }
                        }
                        assert forall|u: int, i: int|
                            0 <= u < n && 0 <= i < r.len() && #[trigger] free[u] implies ranks_before(
                            edges,
                            (#[trigger] r[i]) as int,
                            u,
                        ) by {
                            assert(free_before[u]);
                            if i < before.len() {
                                assert(r[i] == before[i]);
                            }
                        }
                        assert forall|i: int| 0 <= i < r.len() implies (#[trigger] r[i]) < n && !free[r[i] as int] by {
                            if i < before.len() {
                                assert(r[i] == before[i]);
                            }
                        }
                    }
                },
            }
        }
        proof {
            let order = as_nodes(r@);
            assert forall|u: int, i: int|
                0 <= u < n && 0 <= i < order.len() && !order.contains(u) implies #[trigger] ranks_before(
                edges,
                order[i],
                u,
            ) by {
                if !free[u] {
                    let k = choose|k: int| 0 <= k < r.len() && #[trigger] r[k] == u;
                    assert(order[k] == u);
                }
                assert(order[i] == r[i] as int);
            }
            assert forall|i: int, j: int| 0 <= i < j < order.len() implies ranks_before(
                edges,
                #[trigger] order[i],
                #[trigger] order[j],
            ) by {
                assert(order[i] == r[i] as int);
                assert(order[j] == r[j] as int);
            }
        }
        r
    }

    /// The first `top_n` nodes of the ranking by descending degree, each with
    /// its label and its degree.
    pub fn top_connected(&self, top_n: usize) -> (r: Vec<(String, usize)>)
        ensures
            r.len() == if top_n < self.labels().len() {
                top_n as nat
            } else {
                self.labels().len()
            },
            exists|order: Seq<int>|
                {
                    &&& #[trigger] is_ranking(self.edges(), self.labels().len() as int, order)
                    &&& order.len() == r.len()
                    &&& forall|i: int|
                        0 <= i < r.len() ==> (#[trigger] r[i]).0@ == self.labels()[order[i]]
                            && r[i].1 == degree(self.edges(), order[i])
                },
    {
        let nodes = self.top_connected_nodes(top_n);
        let ghost order = as_nodes(nodes@);
        let mut r: Vec<(String, usize)> = Vec::new();
        let mut i: usize = 0;
        while i < nodes.len()
            invariant
                i <= nodes.len(),
                r.len() == i,
                order == as_nodes(nodes@),
                is_ranking(self.edges(), self.labels().len() as int, order),
                forall|k: int|
                    0 <= k < r.len() ==> (#[trigger] r[k]).0@ == self.labels()[order[k]] && r[k].1
                        == degree(self.edges(), order[k]),
            decreases nodes.len() - i,
        {
            let v = nodes[i];
            proof {
                assert(order[i as int] == v as int);
                assert(0 <= order[i as int] < self.labels().len());
            }
            let label = label_at(&self.graph, v);
            let d = count_neighbors(&self.graph, v);
            r.push((label, d));
            i += 1;
        }
        r
    }
}

} // verus!
