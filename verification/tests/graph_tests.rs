use flight_graph::graph::FlightGraph;
use petgraph::graph::Graph;
use petgraph::Undirected;

fn diamond() -> FlightGraph {
    let mut graph = Graph::<String, (), Undirected>::new_undirected();
    let a = graph.add_node("A".to_string());
    let b = graph.add_node("B".to_string());
    let c = graph.add_node("C".to_string());
    let d = graph.add_node("D".to_string());

    graph.add_edge(a, b, ());
    graph.add_edge(b, c, ());
    graph.add_edge(c, d, ());
    graph.add_edge(a, c, ());

    FlightGraph { graph }
}

#[test]
fn test_graph_creation_and_connection() {
    let mut graph = Graph::<String, (), Undirected>::new_undirected();
    let a = graph.add_node("A".to_string());
    let b = graph.add_node("B".to_string());
    graph.add_edge(a, b, ());

    let fg = FlightGraph { graph };
    assert!(fg.is_connected("A", "B"));
    assert!(!fg.is_connected("A", "C"));
}

#[test]
fn test_top_connected_airports() {
    let fg = diamond();
    fg.top_connected(2);
}

#[test]
fn test_airport_with_most_connections() {
    let fg = diamond();
    let airport = fg.airport_with_most_connections();
    assert_eq!(airport, Some("C".to_string()));
}

#[test]
fn test_total_airports() {
    let mut graph = Graph::<String, (), Undirected>::new_undirected();
    graph.add_node("A".to_string());
    graph.add_node("B".to_string());
    graph.add_node("C".to_string());

    let fg = FlightGraph { graph };
    assert_eq!(fg.total_airports(), 3);
}

#[test]
fn top_connected_ranks_by_degree_then_insertion() {
    let fg = diamond();
    assert_eq!(
        fg.top_connected(2),
        vec![("C".to_string(), 3), ("A".to_string(), 2)]
    );
    assert_eq!(fg.top_connected_nodes(2), vec![2, 0]);
    assert_eq!(fg.top_connected_nodes(10), vec![2, 0, 1, 3]);
    assert_eq!(fg.top_connected_nodes(0), Vec::<usize>::new());
    assert_eq!(fg.neighbor_counts(), vec![2, 2, 3, 1]);
}

#[test]
fn most_connected_tie_goes_to_first() {
    let mut fg = FlightGraph::new();
    let a = fg.add_or_get_node("A");
    let b = fg.add_or_get_node("B");
    let c = fg.add_or_get_node("C");
    let d = fg.add_or_get_node("D");
    fg.add_edge(c, d);
    fg.add_edge(a, b);
    assert_eq!(fg.most_connected_node(), Some(0));
    assert_eq!(fg.airport_with_most_connections(), Some("A".to_string()));
}

#[test]
fn most_connected_of_empty_graph_is_none() {
    let fg = FlightGraph::new();
    assert_eq!(fg.airport_with_most_connections(), None);
    assert_eq!(fg.most_connected_node(), None);
    assert_eq!(fg.total_airports(), 0);
    assert_eq!(fg.top_connected(3), Vec::<(String, usize)>::new());
}

#[test]
fn most_connected_without_edges_is_first_node() {
    let mut fg = FlightGraph::new();
    fg.add_or_get_node("A");
    fg.add_or_get_node("B");
    assert_eq!(fg.airport_with_most_connections(), Some("A".to_string()));
    assert_eq!(fg.most_connected_node(), Some(0));
}

#[test]
fn most_connected_prefers_greater_degree_over_first_node() {
    let mut fg = FlightGraph::new();
    fg.add_or_get_node("A");
    let b = fg.add_or_get_node("B");
    let c = fg.add_or_get_node("C");
    fg.add_edge(b, c);
    assert_eq!(fg.most_connected_node(), Some(1));
    assert_eq!(fg.airport_with_most_connections(), Some("B".to_string()));
}

#[test]
fn star_center_is_most_connected() {
    let mut fg = FlightGraph::new();
    let l1 = fg.add_or_get_node("L1");
    let c = fg.add_or_get_node("C");
    let l2 = fg.add_or_get_node("L2");
    let l3 = fg.add_or_get_node("L3");
    fg.add_edge(c, l1);
    fg.add_edge(c, l2);
    fg.add_edge(l3, c);
    assert_eq!(fg.airport_with_most_connections(), Some("C".to_string()));
    assert_eq!(fg.neighbor_count(c), 3);
    assert_eq!(fg.neighbor_count(l3), 1);
}

#[test]
fn add_or_get_node_returns_existing_index() {
    let mut fg = FlightGraph::new();
    assert_eq!(fg.add_or_get_node("ATL"), 0);
    assert_eq!(fg.add_or_get_node("JFK"), 1);
    assert_eq!(fg.add_or_get_node("ATL"), 0);
    assert_eq!(fg.add_or_get_node("LAX"), 2);
    assert_eq!(fg.add_or_get_node("JFK"), 1);
    assert_eq!(fg.total_airports(), 3);
    assert_eq!(fg.label(0), "ATL".to_string());
    assert_eq!(fg.label(2), "LAX".to_string());
    assert_eq!(fg.find_node("LAX"), Some(2));
    assert_eq!(fg.find_node("SFO"), None);
    assert_eq!(fg.total_routes(), 0);
}

#[test]
fn parallel_edges_and_loops_count() {
    let mut fg = FlightGraph::new();
    let a = fg.add_or_get_node("A");
    let b = fg.add_or_get_node("B");
    fg.add_edge(a, b);
    fg.add_edge(a, b);
    fg.add_edge(b, a);
    fg.add_edge(a, a);
    assert_eq!(fg.total_routes(), 4);
    assert_eq!(fg.neighbor_count(a), 4);
    assert_eq!(fg.neighbor_count(b), 3);
}

#[test]
fn is_connected_is_reflexive_and_symmetric() {
    let mut fg = FlightGraph::new();
    let a = fg.add_or_get_node("A");
    let b = fg.add_or_get_node("B");
    let c = fg.add_or_get_node("C");
    fg.add_or_get_node("D");
    fg.add_edge(a, b);
    fg.add_edge(c, b);
    assert!(fg.is_connected("A", "A"));
    assert!(fg.is_connected("D", "D"));
    assert!(fg.is_connected("A", "C"));
    assert!(fg.is_connected("C", "A"));
    assert!(!fg.is_connected("A", "D"));
    assert!(!fg.is_connected("D", "A"));
    assert!(!fg.is_connected("X", "X"));
    assert!(!fg.is_connected("A", "X"));
    assert!(!fg.is_connected("X", "A"));
}

#[test]
fn from_records_builds_nodes_and_edges() {
    let records = vec![
        ("ATL".to_string(), "JFK".to_string()),
        ("JFK".to_string(), "LAX".to_string()),
        ("ATL".to_string(), "JFK".to_string()),
        ("SFO".to_string(), "SFO".to_string()),
    ];
    let fg = FlightGraph::from_records(&records);
    assert_eq!(fg.total_airports(), 4);
    assert_eq!(fg.total_routes(), 4);
    assert_eq!(fg.label(0), "ATL".to_string());
    assert_eq!(fg.label(1), "JFK".to_string());
    assert_eq!(fg.label(2), "LAX".to_string());
    assert_eq!(fg.label(3), "SFO".to_string());
    assert_eq!(fg.neighbor_counts(), vec![2, 3, 1, 1]);
    assert!(fg.is_connected("ATL", "LAX"));
    assert!(!fg.is_connected("ATL", "SFO"));
    assert_eq!(fg.airport_with_most_connections(), Some("JFK".to_string()));
    let empty = FlightGraph::from_records(&Vec::new());
    assert_eq!(empty.total_airports(), 0);
}
