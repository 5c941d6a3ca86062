use flight_graph::densest::{approximate_densest_subgraph, members_of};
use flight_graph::graph::FlightGraph;
use flight_graph::ratio::Ratio;
use petgraph::Graph;

#[test]
fn test_densest_subgraph_not_empty() {
    let mut fg = FlightGraph {
        graph: Graph::new_undirected(),
    };

    let a = fg.graph.add_node("A".to_string());
    let b = fg.graph.add_node("B".to_string());
    let c = fg.graph.add_node("C".to_string());

    fg.graph.add_edge(a, b, ());
    fg.graph.add_edge(a, c, ());

    let r = approximate_densest_subgraph(&fg);
    let density = r.density.num as f64 / r.density.den as f64;
    let nodes = r.nodes;
    assert!(density > 0.0);
    assert!(!nodes.is_empty());
}

#[test]
fn diamond_keeps_the_full_set_on_a_tie() {
    let mut fg = FlightGraph::new();
    let a = fg.add_or_get_node("A");
    let b = fg.add_or_get_node("B");
    let c = fg.add_or_get_node("C");
    let d = fg.add_or_get_node("D");
    fg.add_edge(a, b);
    fg.add_edge(b, c);
    fg.add_edge(c, d);
    fg.add_edge(a, c);
    let r = approximate_densest_subgraph(&fg);
    assert_eq!(r.density, Ratio { num: 8, den: 8 });
    assert_eq!(r.density.num as f64 / r.density.den as f64, 1.0);
    assert_eq!(r.nodes, vec![0, 1, 2, 3]);
    assert_eq!(fg.total_airports(), 4);
    assert_eq!(fg.total_routes(), 4);
}

#[test]
fn peeling_finds_the_dense_core() {
    let mut fg = FlightGraph::new();
    let tail = fg.add_or_get_node("T");
    let n: Vec<usize> = ["P", "Q", "R", "S"].iter().map(|l| fg.add_or_get_node(l)).collect();
    let link = fg.add_or_get_node("U");
    for i in 0..4 {
        for j in (i + 1)..4 {
            fg.add_edge(n[i], n[j]);
        }
    }
    fg.add_edge(n[0], link);
    fg.add_edge(link, tail);
    let r = approximate_densest_subgraph(&fg);
    assert_eq!(r.density, Ratio { num: 12, den: 8 });
    assert_eq!(r.nodes, vec![1, 2, 3, 4]);
}

#[test]
fn densest_is_deterministic_and_within_the_graph() {
    let mut fg = FlightGraph::new();
    let a = fg.add_or_get_node("A");
    let b = fg.add_or_get_node("B");
    let c = fg.add_or_get_node("C");
    fg.add_or_get_node("D");
    fg.add_edge(a, b);
    fg.add_edge(b, c);
    fg.add_edge(c, a);
    let first = approximate_densest_subgraph(&fg);
    let second = approximate_densest_subgraph(&fg);
    assert_eq!(first.density, second.density);
    assert_eq!(first.nodes, second.nodes);
    assert_eq!(first.density, Ratio { num: 6, den: 6 });
    assert_eq!(first.nodes, vec![0, 1, 2]);
    assert!(first.nodes.iter().all(|&v| v < fg.total_airports()));
}

#[test]
fn densest_of_empty_graph_is_zero_and_empty() {
    let fg = FlightGraph::new();
    let r = approximate_densest_subgraph(&fg);
    assert_eq!(r.density, Ratio { num: 0, den: 1 });
    assert_eq!(r.density.num as f64 / r.density.den as f64, 0.0);
    assert!(r.nodes.is_empty());
}

#[test]
fn densest_without_edges_keeps_the_full_set() {
    let mut fg = FlightGraph::new();
    fg.add_or_get_node("A");
    fg.add_or_get_node("B");
    fg.add_or_get_node("C");
    let r = approximate_densest_subgraph(&fg);
    assert_eq!(r.density, Ratio { num: 0, den: 1 });
    assert_eq!(r.nodes, vec![0, 1, 2]);
}

#[test]
fn members_of_lists_set_indices() {
    assert_eq!(members_of(&vec![true, false, true, true, false]), vec![0, 2, 3]);
    assert_eq!(members_of(&vec![false, false]), Vec::<usize>::new());
    assert_eq!(members_of(&vec![]), Vec::<usize>::new());
}

#[test]
fn a_loop_counts_once_in_the_density() {
    let mut fg = FlightGraph::new();
    let a = fg.add_or_get_node("A");
    fg.add_edge(a, a);
    let r = approximate_densest_subgraph(&fg);
    assert_eq!(r.density, Ratio { num: 1, den: 2 });
    assert_eq!(r.nodes, vec![0]);
}

#[test]
fn peeling_improves_round_by_round() {
    let mut fg = FlightGraph::new();
    let a = fg.add_or_get_node("A");
    let b = fg.add_or_get_node("B");
    let c = fg.add_or_get_node("C");
    let d = fg.add_or_get_node("D");
    let e = fg.add_or_get_node("E");
    fg.add_edge(a, b);
    fg.add_edge(c, d);
    fg.add_edge(c, d);
    fg.add_edge(d, e);
    fg.add_edge(e, c);
    fg.add_edge(e, c);
    let r = approximate_densest_subgraph(&fg);
    assert_eq!(r.density, Ratio { num: 10, den: 6 });
    assert_eq!(r.nodes, vec![2, 3, 4]);
}

fn two_triangles(labels: [&str; 6]) -> FlightGraph {
    let mut fg = FlightGraph::new();
    for l in labels {
        fg.add_or_get_node(l);
    }
    let at = |fg: &FlightGraph, l: &str| fg.find_node(l).unwrap();
    for (x, y) in [("A", "B"), ("B", "C"), ("C", "A"), ("D", "E"), ("E", "F"), ("F", "D"), ("E", "F")] {
        let (i, j) = (at(&fg, x), at(&fg, y));
        fg.add_edge(i, j);
    }
    fg
}

#[test]
fn peeling_breaks_ties_by_insertion_order() {
    let plain_first = two_triangles(["A", "B", "C", "D", "E", "F"]);
    let r = approximate_densest_subgraph(&plain_first);
    assert_eq!(r.density, Ratio { num: 8, den: 6 });
    assert_eq!(r.nodes, vec![3, 4, 5]);

    let heavy_first = two_triangles(["D", "E", "F", "A", "B", "C"]);
    let r = approximate_densest_subgraph(&heavy_first);
    assert_eq!(r.density, Ratio { num: 14, den: 12 });
    assert_eq!(r.nodes, vec![0, 1, 2, 3, 4, 5]);
}
