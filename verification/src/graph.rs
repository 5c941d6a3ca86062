//! The graph store: string-labelled nodes and undirected edges between them.

use vstd::prelude::*;
use petgraph::graph::Graph;
use petgraph::Undirected;
use crate::model::{connected, degree, distinct_labels, ends_in_range, has_label, labels_connected, resolves_to};
use crate::ranking::first_max_below;
use crate::store::{count_edges, count_neighbors, count_nodes, graph_edges, graph_labels, label_at, new_graph, path_exists, push_edge, push_node};

verus! {

/// The labels with a node for `label`: a new one at the end, unless a node
/// carries it already.
pub open spec fn with_label(labels: Seq<Seq<char>>, label: Seq<char>) -> Seq<Seq<char>> {
    if has_label(labels, label) {
        labels
    } else {
        labels.push(label)
    }
}

/// The labels of the nodes after the first `k` routes: each route adds its
/// source, then its destination, where no node carries that label yet.
pub open spec fn labels_after(records: Seq<(String, String)>, k: int) -> Seq<Seq<char>>
    decreases k,
{
    if k <= 0 {
        Seq::empty()
    } else {
        with_label(with_label(labels_after(records, k - 1), records[k - 1].0@), records[k - 1].1@)
    }
}

/// The set of the labels that the first `k` routes name, as source or as
/// destination.
pub open spec fn record_labels(records: Seq<(String, String)>, k: int) -> Set<Seq<char>>
    decreases k,
{
    if k <= 0 {
        Set::empty()
    } else {
        record_labels(records, k - 1).insert(records[k - 1].0@).insert(records[k - 1].1@)
    }
}

/// An undirected network of labelled nodes.
pub struct FlightGraph {
    pub graph: Graph<String, (), Undirected>,
}

impl FlightGraph {
    /// The labels of the nodes, in insertion order.
    pub open spec fn labels(&self) -> Seq<Seq<char>> {
        graph_labels(self.graph)
    }

    /// The edges, in insertion order, each as its two node indices.
    pub open spec fn edges(&self) -> Seq<(int, int)> {
        graph_edges(self.graph)
    }

    /// No two nodes carry the same label, and both ends of every edge are
    /// nodes of the network.
    pub open spec fn wf(&self) -> bool {
        &&& distinct_labels(self.labels())
        &&& ends_in_range(self.edges(), self.labels().len() as int)
    }

    /// A network without nodes or edges.
    pub fn new() -> (g: Self)
        ensures
            g.labels() == Seq::<Seq<char>>::empty(),
            g.edges() == Seq::<(int, int)>::empty(),
            g.wf(),
    {
        FlightGraph { graph: new_graph() }
    }

    /// The index that `label` resolves to, if a node carries it.
    pub fn find_node(&self, label: &str) -> (r: Option<usize>)
        ensures
            match r {
                Some(i) => resolves_to(self.labels(), label@, i as int),
                None => !has_label(self.labels(), label@),
            },
    {
        let key = label.to_owned();
        let mut i: usize = count_nodes(&self.graph);
        while i > 0
            invariant
                i <= self.labels().len(),
                key@ == label@,
                forall|j: int| i <= j < self.labels().len() ==> self.labels()[j] != label@,
            decreases i,
        {
            i -= 1;
            let here = label_at(&self.graph, i);
            if here == key {
                return Some(i);
            }
        }
        None
    }

    /// Whether both labels name nodes of the network and a walk leads from one
    /// to the other.
    pub fn is_connected(&self, src: &str, dst: &str) -> (r: bool)
        ensures
            r == labels_connected(self.labels(), self.edges(), src@, dst@),
    {
        let a = match self.find_node(src) {
            Some(i) => i,
            None => {
                return false;
            },
        };
        let b = match self.find_node(dst) {
            Some(i) => i,
            None => {
                return false;
            },
        };
        let r = path_exists(&self.graph, a, b);
        proof {
            if labels_connected(self.labels(), self.edges(), src@, dst@) {
                let (i, j) = choose|i: int, j: int|
                    #![trigger resolves_to(self.labels(), src@, i), resolves_to(self.labels(), dst@, j)]
                    resolves_to(self.labels(), src@, i) && resolves_to(self.labels(), dst@, j)
                        && connected(self.edges(), i, j);
                assert(i == a && j == b);
            }
        }
        r
    }

    /// The number of nodes.
    pub fn total_airports(&self) -> (n: usize)
        ensures
            n == self.labels().len(),
    {
        count_nodes(&self.graph)
    }
    /// The node that carries `label`: the one that has it already, or else a
    /// new node at the end. The edges stay, and so do the other nodes.
    pub fn add_or_get_node(&mut self, label: &str) -> (i: usize)
        requires
            has_label(old(self).labels(), label@) || old(self).labels().len() < u32::MAX,
        ensures
            final(self).edges() == old(self).edges(),
            final(self).labels() == with_label(old(self).labels(), label@),
            has_label(old(self).labels(), label@) ==> final(self).labels() == old(self).labels()
                && resolves_to(old(self).labels(), label@, i as int),
            !has_label(old(self).labels(), label@) ==> final(self).labels() == old(
                self,
            ).labels().push(label@) && i == old(self).labels().len(),
            i < final(self).labels().len(),
            final(self).labels()[i as int] == label@,
            final(self).labels().to_set() == old(self).labels().to_set().insert(label@),
            old(self).wf() ==> final(self).wf(),
    {
        proof {
            lemma_with_label(self.labels(), label@);
        }
        match self.find_node(label) {
            Some(i) => i,
            None => push_node(&mut self.graph, label.to_owned()),
        }
    }

    /// Appends an edge between two nodes of the network. The nodes stay.
    pub fn add_edge(&mut self, a: usize, b: usize)
        requires
            a < old(self).labels().len(),
            b < old(self).labels().len(),
            old(self).edges().len() < u32::MAX,
        ensures
            final(self).labels() == old(self).labels(),
            final(self).edges() == old(self).edges().push((a as int, b as int)),
            old(self).wf() ==> final(self).wf(),
    {
        push_edge(&mut self.graph, a, b);
    }

    /// The number of edges.
    pub fn total_routes(&self) -> (n: usize)
        ensures
            n == self.edges().len(),
    {
        count_edges(&self.graph)
    }

    /// The label of a node.
    pub fn label(&self, i: usize) -> (l: String)
        requires
            i < self.labels().len(),
        ensures
            l@ == self.labels()[i as int],
    {
        label_at(&self.graph, i)
    }

    /// The number of edges with an end at node `i`.
    pub fn neighbor_count(&self, i: usize) -> (n: usize)
        requires
            i < self.labels().len(),
        ensures
            n == degree(self.edges(), i as int),
    {
        count_neighbors(&self.graph, i)
    }

    /// The network that a list of routes describes: for each route, in order,
    /// a node for its source and one for its destination unless a node carries
    /// that label already, and an edge between the two.
    pub fn from_records(records: &Vec<(String, String)>) -> (g: Self)
        requires
            records.len() <= 0x7fff_ffff,
        ensures
            g.wf(),
            g.edges().len() == records.len(),
            forall|k: int|
                0 <= k < records.len() ==> {
                    &&& 0 <= (#[trigger] g.edges()[k]).0 < g.labels().len()
                    &&& 0 <= g.edges()[k].1 < g.labels().len()
                    &&& g.labels()[g.edges()[k].0] == records[k].0@
                    &&& g.labels()[g.edges()[k].1] == records[k].1@
                },
            g.labels() == labels_after(records@, records.len() as int),
            g.labels().to_set() == record_labels(records@, records.len() as int),
            g.labels().len() == record_labels(records@, records.len() as int).len(),
    {
        let mut g = FlightGraph::new();
        let mut k: usize = 0;
        while k < records.len()
            invariant
                k <= records.len() <= 0x7fff_ffff,
                g.wf(),
                g.labels().len() <= 2 * k,
                g.edges().len() == k,
                forall|m: int|
                    0 <= m < k ==> {
                        &&& 0 <= (#[trigger] g.edges()[m]).0 < g.labels().len()
                        &&& 0 <= g.edges()[m].1 < g.labels().len()
                        &&& g.labels()[g.edges()[m].0] == records[m].0@
                        &&& g.labels()[g.edges()[m].1] == records[m].1@
                    },
                g.labels() == labels_after(records@, k as int),
            decreases records.len() - k,
        {
            let ghost l0 = g.labels();
            let ghost e0 = g.edges();
            let a = g.add_or_get_node(records[k].0.as_str());
            let ghost l1 = g.labels();
            let b = g.add_or_get_node(records[k].1.as_str());
            let ghost l2 = g.labels();
            g.add_edge(a, b);
            proof {
                assert(l2[a as int] == l1[a as int]);
                assert forall|i: int| 0 <= i < l0.len() implies l2[i] == l0[i] by {
                    assert(l1[i] == l0[i]);
                }
                assert forall|m: int| 0 <= m < k + 1 implies {
                    &&& 0 <= (#[trigger] g.edges()[m]).0 < g.labels().len()
                    &&& 0 <= g.edges()[m].1 < g.labels().len()
                    &&& g.labels()[g.edges()[m].0] == records[m].0@
                    &&& g.labels()[g.edges()[m].1] == records[m].1@
                } by {
                    if m < k {
                        assert(g.edges()[m] == e0[m]);
                    }
                }
            }
            k += 1;
        }
        proof {
            lemma_labels_after(records@, records.len() as int);
        }
        g
    }

    /// The first node of greatest degree, unless the network has no node.
    pub fn most_connected_node(&self) -> (r: Option<usize>)
        ensures
            match r {
                Some(v) => first_max_below(self.edges(), self.labels().len() as int, v as int),
                None => self.labels().len() == 0,
            },
    {
        let n = count_nodes(&self.graph);
        if n == 0 {
            return None;
        }
        let mut found: usize = 0;
        let mut most: usize = count_neighbors(&self.graph, 0);
        let mut node: usize = 1;
        while node < n
            invariant
                1 <= node <= n,
                n == self.labels().len(),
                first_max_below(self.edges(), node as int, found as int),
                most == degree(self.edges(), found as int),
            decreases n - node,
        {
            let connections = count_neighbors(&self.graph, node);
            if connections > most {
                most = connections;
                found = node;
            }
            node += 1;
        }
        Some(found)
    }

    /// The label of the first node of greatest degree, unless the network has
    /// no node.
    pub fn airport_with_most_connections(&self) -> (r: Option<String>)
        ensures
            match r {
                Some(l) => exists|v: int|
                    #![trigger first_max_below(self.edges(), self.labels().len() as int, v)]
                    first_max_below(self.edges(), self.labels().len() as int, v) && l@
                        == self.labels()[v],
                None => self.labels().len() == 0,
            },
    {
        match self.most_connected_node() {
            Some(v) => {
                let l = label_at(&self.graph, v);
                proof {
                    assert(first_max_below(self.edges(), self.labels().len() as int, v as int));
                }
                Some(l)
            },
            None => None,
        }
    }
}

/// Giving a label a node adds the label to the set of labels, and keeps the
/// labels distinct.
pub proof fn lemma_with_label(labels: Seq<Seq<char>>, label: Seq<char>)
    ensures
        with_label(labels, label).to_set() == labels.to_set().insert(label),
        distinct_labels(labels) ==> distinct_labels(with_label(labels, label)),
{
    let after = with_label(labels, label);
    if has_label(labels, label) {
        let i = choose|i: int| 0 <= i < labels.len() && labels[i] == label;
        assert(labels.contains(label));
        assert(after.to_set() =~= labels.to_set().insert(label));
    } else {
        assert forall|l: Seq<char>| after.contains(l) <==> labels.contains(l) || l == label by {
            if after.contains(l) {
                let k = choose|k: int| 0 <= k < after.len() && after[k] == l;
                if k < labels.len() {
                    assert(labels[k] == l);
                }
            }
            if labels.contains(l) {
                let k = choose|k: int| 0 <= k < labels.len() && labels[k] == l;
                assert(after[k] == l);
            }
            if l == label {
                assert(after[labels.len() as int] == l);
            }
        }
        assert(after.to_set() =~= labels.to_set().insert(label));
        if distinct_labels(labels) {
            assert forall|a: int, b: int| 0 <= a < b < after.len() implies after[a] != after[b] by {
                assert(labels[a] == after[a]);
            }
        }
    }
}

/// The nodes that a list of routes gives are the distinct labels that the
/// routes name, each once: as many nodes as distinct labels.
pub proof fn lemma_labels_after(records: Seq<(String, String)>, k: int)
    ensures
        distinct_labels(labels_after(records, k)),
        labels_after(records, k).to_set() == record_labels(records, k),
        labels_after(records, k).len() == record_labels(records, k).len(),
    decreases k,
{
    if k <= 0 {
        assert(labels_after(records, k).to_set() =~= Set::<Seq<char>>::empty());
    } else {
        lemma_labels_after(records, k - 1);
        let l0 = labels_after(records, k - 1);
        let l1 = with_label(l0, records[k - 1].0@);
        lemma_with_label(l0, records[k - 1].0@);
        lemma_with_label(l1, records[k - 1].1@);
    }
    lemma_node_count_is_label_count(labels_after(records, k));
}

/// A network whose labels are distinct has as many nodes as it has labels.
pub proof fn lemma_node_count_is_label_count(labels: Seq<Seq<char>>)
    requires
        distinct_labels(labels),
    ensures
        labels.to_set().len() == labels.len(),
{
    assert(labels.no_duplicates());
    labels.unique_seq_to_set();
}

} // verus!
