use flight_graph::centrality::{closeness_of_table, compute_centrality, preview_centrality, unit_cost};
use flight_graph::graph::FlightGraph;
use flight_graph::ratio::Ratio;
use petgraph::Graph;

fn value(r: &Ratio) -> f64 {
    r.num as f64 / r.den as f64
}

#[test]
fn test_centrality_returns_values() {
    let mut fg = FlightGraph {
        graph: Graph::new_undirected(),
    };

    let a = fg.graph.add_node("A".to_string());
    let b = fg.graph.add_node("B".to_string());
    let c = fg.graph.add_node("C".to_string());

    fg.graph.add_edge(a, b, ());
    fg.graph.add_edge(a, c, ());

    let centrality = compute_centrality(&fg);
    assert!(!centrality.is_empty());
}

#[test]
fn centrality_of_a_path_is_exact() {
    let mut fg = FlightGraph::new();
    let a = fg.add_or_get_node("A");
    let b = fg.add_or_get_node("B");
    let c = fg.add_or_get_node("C");
    fg.add_edge(a, b);
    fg.add_edge(b, c);
    let r = compute_centrality(&fg);
    assert_eq!(
        r,
        vec![
            ("A".to_string(), Ratio { num: 3, den: 3 }),
            ("B".to_string(), Ratio { num: 3, den: 2 }),
            ("C".to_string(), Ratio { num: 3, den: 3 }),
        ]
    );
    assert_eq!(value(&r[1].1), 1.5);
}

#[test]
fn star_center_is_closer_than_each_leaf() {
    let mut fg = FlightGraph::new();
    let c = fg.add_or_get_node("C");
    let l1 = fg.add_or_get_node("L1");
    let l2 = fg.add_or_get_node("L2");
    let l3 = fg.add_or_get_node("L3");
    fg.add_edge(c, l1);
    fg.add_edge(c, l2);
    fg.add_edge(c, l3);
    let r = compute_centrality(&fg);
    assert_eq!(r[0], ("C".to_string(), Ratio { num: 4, den: 3 }));
    for leaf in 1..4 {
        assert_eq!(r[leaf].1, Ratio { num: 4, den: 5 });
        assert!(value(&r[0].1) > value(&r[leaf].1));
    }
}

#[test]
fn isolated_node_scores_zero() {
    let mut fg = FlightGraph::new();
    let a = fg.add_or_get_node("A");
    let b = fg.add_or_get_node("B");
    fg.add_or_get_node("C");
    fg.add_edge(a, b);
    let r = compute_centrality(&fg);
    assert_eq!(r.len(), 3);
    assert_eq!(r[0], ("A".to_string(), Ratio { num: 2, den: 1 }));
    assert_eq!(r[1], ("B".to_string(), Ratio { num: 2, den: 1 }));
    assert_eq!(r[2], ("C".to_string(), Ratio { num: 0, den: 1 }));
    assert_eq!(value(&r[2].1), 0.0);
}

#[test]
fn centrality_of_empty_graph_is_empty() {
    let fg = FlightGraph::new();
    assert!(compute_centrality(&fg).is_empty());
    assert!(preview_centrality(&fg).is_empty());
}

#[test]
fn preview_stops_after_five_nodes() {
    let mut fg = FlightGraph::new();
    let labels = ["A", "B", "C", "D", "E", "F", "G"];
    let mut last = fg.add_or_get_node(labels[0]);
    for l in &labels[1..] {
        let next = fg.add_or_get_node(l);
        fg.add_edge(last, next);
        last = next;
    }
    let full = compute_centrality(&fg);
    let preview = preview_centrality(&fg);
    assert_eq!(full.len(), 7);
    assert_eq!(preview.len(), 5);
    assert_eq!(&full[..5], &preview[..]);
    assert_eq!(full[0].1, Ratio { num: 7, den: 21 });
    assert_eq!(full[3].1, Ratio { num: 7, den: 12 });
}

#[test]
fn closeness_of_table_counts_and_sums() {
    assert_eq!(
        closeness_of_table(&vec![(2, 2), (0, 0), (1, 1)], 3),
        Ratio { num: 3, den: 3 }
    );
    assert_eq!(closeness_of_table(&vec![(0, 0)], 1), Ratio { num: 0, den: 1 });
    assert_eq!(closeness_of_table(&vec![], 4), Ratio { num: 0, den: 1 });
    assert_eq!(
        closeness_of_table(&vec![(1, 4), (7, 9), (1, 6)], 3),
        Ratio { num: 1, den: 6 }
    );
}

#[test]
fn every_edge_costs_one_hop() {
    assert_eq!(unit_cost(), 1);
}
