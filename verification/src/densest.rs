//! Greedy peeling: remove a node of least degree again and again, and keep the
//! densest set of nodes seen on the way.

use vstd::prelude::*;
use petgraph::stable_graph::StableGraph;
use petgraph::Undirected;
use crate::graph::FlightGraph;
use crate::model::{degree, ends_in_range, lemma_degree_step, touches, without_node};
use crate::ratio::Ratio;
use crate::store::{copy_graph, count_nodes, drop_node, into_working, working_degree, working_edges};

verus! {

/// The densest set of nodes met so far: its density `num / den` and, for each
/// node, whether it belongs to the set.
pub ghost struct Best {
    pub num: nat,
    pub den: nat,
    pub members: Seq<bool>,
}

/// How many of the first `k` nodes are in the working set.
pub open spec fn alive_count(alive: Seq<bool>, k: int) -> nat
    decreases k,
{
    if k <= 0 {
        0
    } else {
        alive_count(alive, k - 1) + if alive[k - 1] { 1nat } else { 0nat }
    }
}

/// The degrees of those of the first `k` nodes that are in the working set,
/// added up. Over all nodes this counts each edge at both of its ends.
pub open spec fn degree_sum(edges: Seq<(int, int)>, alive: Seq<bool>, k: int) -> nat
    decreases k,
{
    if k <= 0 {
        0
    } else {
        degree_sum(edges, alive, k - 1) + if alive[k - 1] { degree(edges, k - 1) } else { 0nat }
    }
}

/// Among the first `k` nodes, `v` is in the working set, no node of the set
/// has a smaller degree, and every node of the set before `v` has a larger
/// one.
pub open spec fn first_min_below(edges: Seq<(int, int)>, alive: Seq<bool>, k: int, v: int) -> bool {
    &&& 0 <= v < k
    &&& alive[v]
    &&& forall|u: int|
        0 <= u < k && #[trigger] alive[u] ==> degree(edges, v) <= degree(edges, u) && (u < v
            ==> degree(edges, v) < degree(edges, u))
}

/// `v` is the node to peel next: the first node of least degree in the
/// working set.
pub open spec fn is_peel_target(edges: Seq<(int, int)>, alive: Seq<bool>, v: int) -> bool {
    first_min_below(edges, alive, alive.len() as int, v)
}

/// Whether the density `num / den` is strictly greater than `best_num /
/// best_den`.
pub open spec fn denser(num: nat, den: nat, best_num: nat, best_den: nat) -> bool {
    num * best_den > best_num * den
}

/// The outcome of peeling for at most `rounds` more rounds. A round ends the
/// peeling where the working set is empty. Otherwise it measures the working
/// set, whose density is half the sum of its degrees over its size, records it
/// where it is strictly denser than the best so far, and removes the peel
/// target with its edges. Each round removes one node, so as many rounds as
/// there are nodes empty the set.
pub open spec fn peel(edges: Seq<(int, int)>, alive: Seq<bool>, best: Best, rounds: nat) -> Best
    decreases rounds,
{
    if rounds == 0 || !exists|v: int| is_peel_target(edges, alive, v) {
        best
    } else {
        let v = choose|v: int| is_peel_target(edges, alive, v);
        let num = degree_sum(edges, alive, alive.len() as int);
        let den = 2 * alive_count(alive, alive.len() as int);
        let next = if denser(num, den, best.num, best.den) {
            Best { num, den, members: alive }
        } else {
            best
        };
        peel(without_node(edges, v), alive.update(v, false), next, (rounds - 1) as nat)
    }
}

/// The outcome of peeling a graph of `n` nodes: it starts from the full node
/// set, with density zero and the full set as the best so far.
pub open spec fn densest(n: nat, edges: Seq<(int, int)>) -> Best {
    let full = Seq::new(n, |i: int| true);
    peel(edges, full, Best { num: 0, den: 1, members: full }, n)
}

/// `list` holds, in ascending order, exactly the indices at which `mask` is
/// set.
pub open spec fn lists_members(list: Seq<usize>, mask: Seq<bool>) -> bool {
    &&& forall|i: int, j: int| 0 <= i < j < list.len() ==> list[i] < list[j]
    &&& forall|i: int| 0 <= i < list.len() ==> (#[trigger] list[i]) < mask.len() && mask[list[i] as int]
    &&& forall|v: int|
        0 <= v < mask.len() && #[trigger] mask[v] ==> exists|i: int|
            0 <= i < list.len() && #[trigger] list[i] == v
}

/// `density` and `nodes` are what peeling a graph of `n` nodes gives.
pub open spec fn is_densest(n: nat, edges: Seq<(int, int)>, density: Ratio, nodes: Seq<usize>) -> bool {
    &&& density.num == densest(n, edges).num
    &&& density.den == densest(n, edges).den
    &&& lists_members(nodes, densest(n, edges).members)
}

/// Two ascending lists of the indices at which one mask is set are the same
/// list.
pub proof fn lemma_members_unique(a: Seq<usize>, b: Seq<usize>, mask: Seq<bool>)
    requires
        lists_members(a, mask),
        lists_members(b, mask),
    ensures
        a == b,
    decreases a.len(),
{
    if a.len() == 0 {
        if b.len() > 0 {
            assert(mask[b[0] as int]);
        }
        assert(a =~= b);
    } else {
        let top = a[a.len() - 1];
        assert(mask[top as int]);
        let j = choose|j: int| 0 <= j < b.len() && #[trigger] b[j] == top;
        let other = b[b.len() - 1];
        assert(mask[other as int]);
        let i = choose|i: int| 0 <= i < a.len() && #[trigger] a[i] == other;
        assert(other == top);
        let rest = mask.update(top as int, false);
        let a0 = a.drop_last();
        let b0 = b.drop_last();
        assert forall|v: int| 0 <= v < rest.len() && #[trigger] rest[v] implies exists|i: int|
            0 <= i < a0.len() && #[trigger] a0[i] == v by {
            assert(mask[v]);
            let i = choose|i: int| 0 <= i < a.len() && #[trigger] a[i] == v;
            assert(a0[i] == v);
        }
        assert forall|v: int| 0 <= v < rest.len() && #[trigger] rest[v] implies exists|i: int|
            0 <= i < b0.len() && #[trigger] b0[i] == v by {
            assert(mask[v]);
            let i = choose|i: int| 0 <= i < b.len() && #[trigger] b[i] == v;
            assert(b0[i] == v);
        }
        assert(lists_members(a0, rest)) by {
            assert forall|i: int| 0 <= i < a0.len() implies (#[trigger] a0[i]) < rest.len()
                && rest[a0[i] as int] by {
                assert(a0[i] == a[i]);
            }
        }
        assert(lists_members(b0, rest)) by {
            assert forall|i: int| 0 <= i < b0.len() implies (#[trigger] b0[i]) < rest.len()
                && rest[b0[i] as int] by {
                assert(b0[i] == b[i]);
            }
        }
        lemma_members_unique(a0, b0, rest);
        assert(a =~= a0.push(top));
        assert(b =~= b0.push(other));
    }
}

/// Peeling is deterministic: two results for the same nodes and edges are the
/// same density and the same list of nodes.
pub proof fn lemma_densest_deterministic(
    n: nat,
    edges: Seq<(int, int)>,
    first_density: Ratio,
    first_nodes: Seq<usize>,
    second_density: Ratio,
    second_nodes: Seq<usize>,
)
    requires
        is_densest(n, edges, first_density, first_nodes),
        is_densest(n, edges, second_density, second_nodes),
    ensures
        first_density == second_density,
        first_nodes == second_nodes,
{
    lemma_members_unique(first_nodes, second_nodes, densest(n, edges).members);
}

/// The result of the approximation.
pub struct DensestSubgraph {
    /// The greatest density met: edges per node of the set in `nodes`, or zero
    /// where no set had an edge.
    pub density: Ratio,
    /// The indices of the nodes of the densest set, ascending.
    pub nodes: Vec<usize>,
}

/// What one round learns of the working set.
struct Survey {
    /// The size of the working set.
    pub count: usize,
    /// The sum of the degrees of its nodes.
    pub sum: u64,
    /// The first node of least degree, if the set is not empty.
    pub target: Option<usize>,
}

/// Measures the working set: its size, the sum of its degrees and the node to
/// peel next.
fn survey(w: &StableGraph<String, (), Undirected>, alive: &Vec<bool>) -> (s: Survey)
    requires
        alive.len() <= u32::MAX,
    ensures
        s.count == alive_count(alive@, alive.len() as int),
        s.sum == degree_sum(working_edges(*w), alive@, alive.len() as int),
        s.sum <= alive.len() * 0xffff_ffff,
        match s.target {
            Some(v) => is_peel_target(working_edges(*w), alive@, v as int),
            None => forall|v: int| 0 <= v < alive.len() ==> !alive[v],
        },
{
    let ghost edges = working_edges(*w);
    let n = alive.len();
    let mut count: usize = 0;
    let mut sum: u64 = 0;
    let mut target: Option<usize> = None;
    let mut least: usize = 0;
    let mut k: usize = 0;
    while k < n
        invariant
            k <= n,
            n == alive.len(),
            n <= u32::MAX,
            edges == working_edges(*w),
            count == alive_count(alive@, k as int),
            count <= k,
            sum == degree_sum(edges, alive@, k as int),
            sum <= k * 0xffff_ffff,
            match target {
                Some(v) => first_min_below(edges, alive@, k as int, v as int) && least == degree(
                    edges,
                    v as int,
                ),
                None => forall|v: int| 0 <= v < k ==> !alive[v],
            },
        decreases n - k,
    {
        if alive[k] {
            let d = working_degree(w, k);
            count += 1;
            sum += d as u64;
            let better = match target {
                Some(_) => d < least,
                None => true,
            };
            if better {
                target = Some(k);
                least = d;
            }
        }
        k += 1;
    }
    Survey { count, sum, target }
}

/// A copy of a mask.
fn copy_mask(mask: &Vec<bool>) -> (r: Vec<bool>)
    ensures
        r@ == mask@,
{
    let mut r: Vec<bool> = Vec::new();
    let mut i: usize = 0;
    while i < mask.len()
        invariant
            i <= mask.len(),
            r@ == mask@.take(i as int),
        decreases mask.len() - i,
    {
        r.push(mask[i]);
        proof {
            assert(mask@.take(i + 1) == mask@.take(i as int).push(mask@[i as int]));
        }
        i += 1;
    }
    proof {
        assert(mask@.take(mask.len() as int) == mask@);
    }
    r
}

/// The indices at which a mask is set, ascending.
pub fn members_of(mask: &Vec<bool>) -> (r: Vec<usize>)
    ensures
        lists_members(r@, mask@),
{
    let mut r: Vec<usize> = Vec::new();
    let mut i: usize = 0;
    while i < mask.len()
        invariant
            i <= mask.len(),
            lists_members(r@, mask@.take(i as int)),
            forall|j: int| 0 <= j < r.len() ==> r[j] < i,
        decreases mask.len() - i,
    {
        let ghost before = r@;
        if mask[i] {
            r.push(i);
        }
        proof {
            let front = mask@.take(i as int);
            let now = mask@.take(i + 1);
            assert forall|v: int| 0 <= v < now.len() && #[trigger] now[v] implies exists|j: int|
                0 <= j < r.len() && #[trigger] r[j] == v by {
                if v < i {
                    assert(front[v]);
                    let j = choose|j: int| 0 <= j < before.len() && #[trigger] before[j] == v;
                    assert(r[j] == v);
                } else {
                    assert(r[r.len() - 1] == v);
                }
            }
            assert forall|j: int| 0 <= j < r.len() implies (#[trigger] r[j]) < now.len() && now[r[j] as int] by {
                if j < before.len() {
                    assert(before[j] == r[j]);
                    assert(front[before[j] as int]);
                }
            }
        }
        i += 1;
    }
    proof {
        assert(mask@.take(mask.len() as int) == mask@);
    }
    r
}

/// A node set that approximates the densest subgraph, by greedy peeling.
///
/// The peeling works on a copy of the graph and leaves the graph as it is. The
/// result is the density and the members that `densest` gives for the graph's
/// nodes and edges; the set has a member unless the graph has no node.
pub fn approximate_densest_subgraph(flight_graph: &FlightGraph) -> (r: DensestSubgraph)
    ensures
        is_densest(flight_graph.labels().len(), flight_graph.edges(), r.density, r.nodes@),
        r.density.den > 0,
        forall|i: int| 0 <= i < r.nodes.len() ==> r.nodes[i] < flight_graph.labels().len(),
        flight_graph.labels().len() > 0 ==> r.nodes.len() > 0,
{
    let n = count_nodes(&flight_graph.graph);
    let mut w = into_working(copy_graph(&flight_graph.graph));
    let mut alive: Vec<bool> = Vec::new();
    while alive.len() < n
        invariant
            alive.len() <= n,
            alive@ == Seq::new(alive.len() as nat, |i: int| true),
        decreases n - alive.len(),
    {
        alive.push(true);
        proof {
            assert(alive@ == Seq::new(alive.len() as nat, |i: int| true));
        }
    }
    proof {
        assert(alive@ =~= Seq::new(n as nat, |i: int| true));
    }
    let mut best_mask = copy_mask(&alive);
    let mut best_num: u64 = 0;
    let mut best_den: u64 = 1;
    let mut rounds: usize = n;
    let ghost goal = densest(n as nat, flight_graph.edges());
    while rounds > 0
        invariant
            n <= u32::MAX,
            alive.len() == n,
            best_mask.len() == n,
            1 <= best_den <= 2 * n + 1,
            best_num <= n * 0xffff_ffff,
            n > 0 ==> exists|v: int| 0 <= v < n && #[trigger] best_mask[v],
            peel(
                working_edges(w),
                alive@,
                Best { num: best_num as nat, den: best_den as nat, members: best_mask@ },
                rounds as nat,
            ) == goal,
        decreases rounds,
    {
        let ghost edges = working_edges(w);
        let s = survey(&w, &alive);
        match s.target {
            None => {
                proof {
                    assert(!exists|v: int| is_peel_target(edges, alive@, v));
                }
                rounds = 0;
            },
            Some(v) => {
                proof {
                    assert forall|u: int| is_peel_target(edges, alive@, u) implies u == v by {
                        assert(alive@[u]);
                        assert(alive@[v as int]);
                    }
                    lemma_count_bounds(alive@, n as int);
                    assert(s.sum * best_den <= 0xffff_ffff_ffff_ffff * 0x2_0000_0000) by (nonlinear_arith)
                        requires
                            s.sum <= 0xffff_ffff_ffff_ffff,
                            1 <= best_den <= 0x2_0000_0000,
                    ;
                    assert(best_num * (2 * s.count) <= 0xffff_ffff_ffff_ffff * 0x2_0000_0000) by (nonlinear_arith)
                        requires
                            best_num <= 0xffff_ffff_ffff_ffff,
                            0 <= 2 * s.count <= 0x2_0000_0000,
                    ;
                }
                let den: u64 = 2 * (s.count as u64);
                let lhs: u128 = (s.sum as u128) * (best_den as u128);
                let rhs: u128 = (best_num as u128) * (den as u128);
                if lhs > rhs {
                    best_num = s.sum;
                    best_den = den;
                    best_mask = copy_mask(&alive);
                    proof {
                        assert(best_mask[v as int]);
                        lemma_count_member(alive@, n as int, v as int);
                    }
                }
                drop_node(&mut w, v);
                alive.set(v, false);
                rounds -= 1;
            },
        }
    }
    let nodes = members_of(&best_mask);
    DensestSubgraph { density: Ratio { num: best_num as u128, den: best_den as u128 }, nodes }
}

/// A working set with a member among the first `k` nodes has a first node of
/// least degree there.
pub proof fn lemma_first_min(edges: Seq<(int, int)>, alive: Seq<bool>, k: int) -> (v: int)
    requires
        0 <= k <= alive.len(),
        exists|u: int| 0 <= u < k && alive[u],
    ensures
        first_min_below(edges, alive, k, v),
    decreases k,
{
    let last = k - 1;
    if exists|u: int| 0 <= u < last && alive[u] {
        let v = lemma_first_min(edges, alive, last);
        if alive[last] && degree(edges, last) < degree(edges, v) {
            last
        } else {
            v
        }
    } else {
        let u = choose|u: int| 0 <= u < k && alive[u];
        assert(u == last);
        last
    }
}

/// Peeling never gives up the best: its outcome is at least as dense as the
/// best that it started with.
pub proof fn lemma_peel_keeps_best(edges: Seq<(int, int)>, alive: Seq<bool>, best: Best, rounds: nat)
    requires
        best.den > 0,
    ensures
        peel(edges, alive, best, rounds).den > 0,
        peel(edges, alive, best, rounds).num * best.den >= best.num * peel(
            edges,
            alive,
            best,
            rounds,
        ).den,
    decreases rounds,
{
    if rounds > 0 && exists|v: int| is_peel_target(edges, alive, v) {
        let v = choose|v: int| is_peel_target(edges, alive, v);
        let num = degree_sum(edges, alive, alive.len() as int);
        let den = 2 * alive_count(alive, alive.len() as int);
        lemma_count_member(alive, alive.len() as int, v);
        let next = if denser(num, den, best.num, best.den) {
            Best { num, den, members: alive }
        } else {
            best
        };
        lemma_peel_keeps_best(without_node(edges, v), alive.update(v, false), next, (rounds - 1) as nat);
        let r = peel(edges, alive, best, rounds);
        if denser(num, den, best.num, best.den) {
            assert(r.num * best.den >= best.num * r.den) by (nonlinear_arith)
                requires
                    r.num * den >= num * r.den,
                    num * best.den > best.num * den,
                    den > 0,
                    r.den > 0,
                    best.den > 0,
            ;
        }
    }
}

/// The outcome of peeling is at least as dense as the whole graph, whose
/// density is the sum of all degrees over twice the number of nodes.
pub proof fn lemma_densest_at_least_whole(n: nat, edges: Seq<(int, int)>)
    ensures
        densest(n, edges).den > 0,
        densest(n, edges).num * (2 * n) >= degree_sum(edges, Seq::new(n, |i: int| true), n as int)
            * densest(n, edges).den,
{
    let full = Seq::new(n, |i: int| true);
    let start = Best { num: 0, den: 1, members: full };
    lemma_peel_keeps_best(edges, full, start, n);
    if n > 0 {
        assert(full[0]);
        let w = lemma_first_min(edges, full, n as int);
        assert(is_peel_target(edges, full, w));
        let v = choose|v: int| is_peel_target(edges, full, v);
        let num = degree_sum(edges, full, n as int);
        let den = 2 * alive_count(full, n as int);
        lemma_full_count(full, n as int);
        let next = if denser(num, den, start.num, start.den) {
            Best { num, den, members: full }
        } else {
            start
        };
        lemma_peel_keeps_best(without_node(edges, v), full.update(v, false), next, (n - 1) as nat);
        let r = densest(n, edges);
        assert(r == peel(without_node(edges, v), full.update(v, false), next, (n - 1) as nat));
        if denser(num, den, start.num, start.den) {
            assert(r.num * (2 * n) >= num * r.den);
        } else {
            assert(num == 0) by (nonlinear_arith)
                requires
                    !(num * 1 > 0 * den),
                    num >= 0,
            ;
            assert(r.num * (2 * n) >= num * r.den) by (nonlinear_arith)
                requires
                    num == 0,
                    r.num >= 0,
                    n >= 0,
            ;
        }
    } else {
        assert(degree_sum(edges, full, 0) == 0);
    }
}

/// A working set that holds each of the first `k` nodes counts `k`.
pub proof fn lemma_full_count(alive: Seq<bool>, k: int)
    requires
        0 <= k <= alive.len(),
        forall|v: int| 0 <= v < k ==> alive[v],
    ensures
        alive_count(alive, k) == k,
    decreases k,
{
    if k > 0 {
        lemma_full_count(alive, k - 1);
    }
}

/// Whether both ends of an edge are in the working set.
pub open spec fn inside(alive: Seq<bool>, e: (int, int)) -> bool {
    0 <= e.0 < alive.len() && 0 <= e.1 < alive.len() && alive[e.0] && alive[e.1]
}

/// The edges between nodes of the working set, in their order.
pub open spec fn induced(edges: Seq<(int, int)>, alive: Seq<bool>) -> Seq<(int, int)> {
    edges.filter(|e: (int, int)| inside(alive, e))
}

/// The density `best.num / best.den` is that of the set `best.members` in the
/// graph: the sum of the degrees inside the set over twice its size.
pub open spec fn is_own_density(edges: Seq<(int, int)>, best: Best) -> bool {
    best.num * (2 * alive_count(best.members, best.members.len() as int)) == degree_sum(
        induced(edges, best.members),
        best.members,
        best.members.len() as int,
    ) * best.den
}

/// Filtering edge by edge: the last edge stays where it meets the condition.
proof fn lemma_filter_push(s: Seq<(int, int)>, x: (int, int), pred: spec_fn((int, int)) -> bool)
    ensures
        s.push(x).filter(pred) == if pred(x) {
            s.filter(pred).push(x)
        } else {
            s.filter(pred)
        },
{
    reveal(Seq::filter);
    assert(s.push(x).drop_last() =~= s);
}

/// Removing a node from the edges inside a working set leaves the edges
/// inside the working set without that node.
pub proof fn lemma_induced_step(edges: Seq<(int, int)>, alive: Seq<bool>, v: int)
    requires
        0 <= v < alive.len(),
    ensures
        without_node(induced(edges, alive), v) == induced(edges, alive.update(v, false)),
    decreases edges.len(),
{
    reveal(Seq::filter);
    if edges.len() > 0 {
        let front = edges.drop_last();
        let last = edges.last();
        lemma_induced_step(front, alive, v);
        let keep = |e: (int, int)| inside(alive, e);
        let apart = |e: (int, int)| !touches(e, v);
        let rest = |e: (int, int)| inside(alive.update(v, false), e);
        assert(edges =~= front.push(last));
        lemma_filter_push(front, last, keep);
        lemma_filter_push(front, last, rest);
        if keep(last) {
            lemma_filter_push(front.filter(keep), last, apart);
        }
        assert(rest(last) == (keep(last) && apart(last)));
    }
}

/// Where both ends of every edge are nodes, every edge is inside the full
/// node set.
pub proof fn lemma_induced_full(edges: Seq<(int, int)>, full: Seq<bool>)
    requires
        forall|k: int|
            0 <= k < edges.len() ==> 0 <= (#[trigger] edges[k]).0 < full.len() && 0 <= edges[k].1
                < full.len(),
        forall|v: int| 0 <= v < full.len() ==> full[v],
    ensures
        induced(edges, full) == edges,
    decreases edges.len(),
{
    reveal(Seq::filter);
    if edges.len() > 0 {
        let front = edges.drop_last();
        assert forall|k: int| 0 <= k < front.len() implies 0 <= (#[trigger] front[k]).0 < full.len()
            && 0 <= front[k].1 < full.len() by {
            assert(front[k] == edges[k]);
        }
        lemma_induced_full(front, full);
        assert(inside(full, edges[edges.len() - 1]));
        assert(edges =~= front.push(edges.last()));
    }
}

/// Peeling keeps the best honest: where the best that it starts with has the
/// density of its own set, so has its outcome.
pub proof fn lemma_peel_own_density(
    graph: Seq<(int, int)>,
    alive: Seq<bool>,
    best: Best,
    rounds: nat,
)
    requires
        is_own_density(graph, best),
    ensures
        is_own_density(graph, peel(induced(graph, alive), alive, best, rounds)),
    decreases rounds,
{
    let edges = induced(graph, alive);
    if rounds > 0 && exists|v: int| is_peel_target(edges, alive, v) {
        let v = choose|v: int| is_peel_target(edges, alive, v);
        let num = degree_sum(edges, alive, alive.len() as int);
        let den = 2 * alive_count(alive, alive.len() as int);
        let next = if denser(num, den, best.num, best.den) {
            Best { num, den, members: alive }
        } else {
            best
        };
        lemma_induced_step(graph, alive, v);
        lemma_peel_own_density(graph, alive.update(v, false), next, (rounds - 1) as nat);
    }
}

/// The density that peeling returns is the density of the set that it
/// returns, in a graph whose edges all end in nodes.
pub proof fn lemma_densest_own_density(n: nat, edges: Seq<(int, int)>)
    requires
        ends_in_range(edges, n as int),
    ensures
        is_own_density(edges, densest(n, edges)),
{
    let full = Seq::new(n, |i: int| true);
    let start = Best { num: 0, den: 1, members: full };
    lemma_induced_full(edges, full);
    if n > 0 && exists|v: int| is_peel_target(edges, full, v) {
        let v = choose|v: int| is_peel_target(edges, full, v);
        let num = degree_sum(edges, full, n as int);
        let den = 2 * alive_count(full, n as int);
        let next = if denser(num, den, start.num, start.den) {
            Best { num, den, members: full }
        } else {
            start
        };
        if !denser(num, den, start.num, start.den) {
            assert(num == 0) by (nonlinear_arith)
                requires
                    !(num * 1 > 0 * den),
                    num >= 0,
            ;
        }
        assert(is_own_density(edges, next));
        lemma_induced_step(edges, full, v);
        lemma_peel_own_density(edges, full.update(v, false), next, (n - 1) as nat);
    } else {
        if n > 0 {
            assert(full[0]);
            let w = lemma_first_min(edges, full, n as int);
            assert(is_peel_target(edges, full, w));
        }
        assert(degree_sum(edges, full, 0) == 0);
        let c = alive_count(full, 0);
        assert(start.num * (2 * c) == 0) by (nonlinear_arith)
            requires
                start.num == 0,
        ;
    }
}

/// Peeling a graph without nodes gives density zero and no member.
pub proof fn lemma_densest_of_nothing(edges: Seq<(int, int)>)
    ensures
        densest(0, edges).num == 0,
        densest(0, edges).den == 1,
        densest(0, edges).members.len() == 0,
{
}

/// Without edges the degrees of a working set add up to zero.
pub proof fn lemma_no_edges_no_degrees(alive: Seq<bool>, k: int)
    ensures
        degree_sum(Seq::<(int, int)>::empty(), alive, k) == 0,
    decreases k,
{
    if k > 0 {
        lemma_no_edges_no_degrees(alive, k - 1);
        lemma_degree_step(Seq::<(int, int)>::empty(), k - 1);
    }
}

/// Without edges no working set is denser than a best of density zero, so
/// peeling leaves that best as it is.
pub proof fn lemma_peel_without_edges(alive: Seq<bool>, best: Best, rounds: nat)
    requires
        best.num == 0,
    ensures
        peel(Seq::<(int, int)>::empty(), alive, best, rounds) == best,
    decreases rounds,
{
    let edges = Seq::<(int, int)>::empty();
    if rounds > 0 && exists|v: int| is_peel_target(edges, alive, v) {
        let v = choose|v: int| is_peel_target(edges, alive, v);
        lemma_no_edges_no_degrees(alive, alive.len() as int);
        let den = 2 * alive_count(alive, alive.len() as int);
        assert(!denser(0, den, best.num, best.den)) by (nonlinear_arith)
            requires
                best.num == 0,
        ;
        assert(without_node(edges, v) =~= edges) by {
            reveal(Seq::filter);
        }
        lemma_peel_without_edges(alive.update(v, false), best, (rounds - 1) as nat);
    }
}

/// A graph without edges has density zero, and its densest set is the full
/// node set.
pub proof fn lemma_densest_without_edges(n: nat)
    ensures
        densest(n, Seq::<(int, int)>::empty()).num == 0,
        densest(n, Seq::<(int, int)>::empty()).den == 1,
        densest(n, Seq::<(int, int)>::empty()).members == Seq::new(n, |i: int| true),
{
    let full = Seq::new(n, |i: int| true);
    lemma_peel_without_edges(full, Best { num: 0, den: 1, members: full }, n);
}

/// A working set with a member among the first `k` nodes counts at least one.
pub proof fn lemma_count_member(alive: Seq<bool>, k: int, v: int)
    requires
        0 <= v < k,
        alive[v],
    ensures
        alive_count(alive, k) >= 1,
    decreases k,
{
    if v < k - 1 {
        lemma_count_member(alive, k - 1, v);
    }
}

/// No more than `k` of the first `k` nodes are in the working set.
pub proof fn lemma_count_bounds(alive: Seq<bool>, k: int)
    ensures
        alive_count(alive, k) <= if k < 0 { 0 } else { k },
    decreases k,
{
    if k > 0 {
        lemma_count_bounds(alive, k - 1);
    }
}

} // verus!
