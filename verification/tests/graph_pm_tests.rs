use netflow::graph_pm::construction::GraphError;
use netflow::graph_pm::graph::Graph;
use netflow::graph_pm::structure_xml::{
    AddModule, AdditionalModules, Demand, Demands, Link, Links, Network, NetworkStructure, Node,
    Nodes, PreInstalledModule,
};

fn link(id: &str, source: &str, target: &str, pre: Option<f64>, add: Option<Vec<f64>>) -> Link<f64> {
    Link {
        id: id.to_string(),
        source: source.to_string(),
        target: target.to_string(),
        capacity: pre.map(|c| PreInstalledModule { capacity: c }),
        modules: add.map(|cs| AdditionalModules {
            add_module: cs.into_iter().map(|c| AddModule { capacity: c }).collect(),
        }),
    }
}

fn network(nodes: &[&str], links: Vec<Link<f64>>, demands: &[(&str, &str, f64)]) -> Network<f64> {
    Network {
        network_structure: NetworkStructure {
            nodes: Nodes { nodes: nodes.iter().map(|n| Node { id: n.to_string() }).collect() },
            links: Links { links },
        },
        demands: Demands {
            demands: demands
                .iter()
                .enumerate()
                .map(|(i, (s, t, v))| Demand {
                    id: format!("D{}", i),
                    source: s.to_string(),
                    target: t.to_string(),
                    value: *v,
                })
                .collect(),
        },
    }
}

/// a - b - c - d in a line, plus a long way round a - e - f - d.
fn sample() -> Network<f64> {
    network(
        &["a", "b", "c", "d", "e", "f"],
        vec![
            link("L1", "a", "b", Some(10.0), None),
            link("L2", "b", "c", None, Some(vec![20.0, 40.0])),
            link("L3", "c", "d", Some(30.0), Some(vec![99.0])),
            link("L4", "a", "e", Some(5.0), None),
            link("L5", "e", "f", Some(5.0), None),
            link("L6", "f", "d", Some(5.0), None),
        ],
        &[("a", "d", 2.5), ("c", "e", 1.0)],
    )
}

fn build(n: &Network<f64>) -> Graph<f64> {
    assert!(Graph::network_is_buildable(n));
    match Graph::from_network(n) {
        Ok(g) => g,
        Err(_) => panic!("network should build"),
    }
}

fn index_of(g: &Graph<f64>, name: &str) -> usize {
    g.nodes.iter().find(|(k, _)| k == name).map(|(_, v)| *v).unwrap()
}

#[test]
fn build_indexes_nodes_in_order() {
    let g = build(&sample());
    assert_eq!(g.nodes.len(), 6);
    for (i, name) in ["a", "b", "c", "d", "e", "f"].iter().enumerate() {
        assert_eq!(index_of(&g, name), i);
    }
    assert_eq!(g.count_dejkstra, 0);
}

#[test]
fn build_makes_two_opposite_edges_per_link() {
    let g = build(&sample());
    assert_eq!(g.edges.len(), 12);
    let e0 = &g.edges[0];
    let e1 = &g.edges[1];
    assert_eq!((e0.from, e0.to, e0.index, e0.capacity, e0.flow), (0, 1, 0, 10.0, 0.0));
    assert_eq!((e1.from, e1.to, e1.index, e1.capacity, e1.flow), (1, 0, 1, 10.0, 0.0));
    // capacity of the first additional module when nothing is preinstalled
    assert_eq!(g.edges[2].capacity, 20.0);
    assert_eq!(g.edges[3].capacity, 20.0);
    // the preinstalled module wins over additional ones
    assert_eq!(g.edges[4].capacity, 30.0);
    for (i, e) in g.edges.iter().enumerate() {
        assert_eq!(e.index, i);
    }
}

#[test]
fn build_fills_adjacency_in_link_order() {
    let g = build(&sample());
    assert_eq!(g.adj_list.len(), 6);
    assert_eq!(g.adj_list[0], vec![(1, 0), (4, 6)]);
    assert_eq!(g.adj_list[1], vec![(0, 1), (2, 2)]);
    assert_eq!(g.adj_list[3], vec![(2, 5), (5, 11)]);
}

#[test]
fn build_turns_demands_into_commodities() {
    let g = build(&sample());
    assert_eq!(g.commodities.len(), 2);
    assert_eq!((g.commodities[0].source, g.commodities[0].target), (0, 3));
    assert_eq!(g.commodities[0].demand, 2.5);
    assert_eq!((g.commodities[1].source, g.commodities[1].target), (2, 4));
    assert!(g.commodities[1].paths.is_empty());
}

#[test]
fn link_without_capacity_is_an_error() {
    let n = network(
        &["a", "b"],
        vec![link("L1", "a", "b", Some(1.0), None), link("L2", "b", "a", None, None)],
        &[("a", "zz", 1.0)],
    );
    // the demand names an unknown node, but the bad link is met first
    assert!(Graph::network_is_buildable(&n));
    assert!(matches!(Graph::from_network(&n), Err(GraphError::CapacityNotFound)));
}

#[test]
fn unknown_node_is_not_buildable() {
    let n = network(&["a", "b"], vec![link("L1", "a", "x", Some(1.0), None)], &[]);
    assert!(!Graph::network_is_buildable(&n));
    let n = network(&["a", "b"], vec![link("L1", "a", "b", Some(1.0), None)], &[("a", "q", 1.0)]);
    assert!(!Graph::network_is_buildable(&n));
    let n = network(&["a", "b"], vec![link("L1", "a", "b", None, Some(vec![]))], &[]);
    assert!(!Graph::network_is_buildable(&n));
}

#[test]
fn repeated_node_name_takes_last_position() {
    // "a" occurs twice: it stands for index 2, and there are two distinct names
    let n = network(&["a", "b", "a"], vec![], &[]);
    let g = build(&n);
    assert_eq!(g.nodes.len(), 2);
    assert_eq!(index_of(&g, "a"), 2);
    assert_eq!(index_of(&g, "b"), 1);
    // a link to "a" would leave the node range
    let n = network(&["a", "b", "a"], vec![link("L1", "b", "a", Some(1.0), None)], &[]);
    assert!(!Graph::network_is_buildable(&n));
}

#[test]
fn initial_path_has_fewest_edges() {
    let mut g = build(&sample());
    let p = g.find_initial_path(0, 3).unwrap();
    // a -> b -> c -> d and a -> e -> f -> d both take three edges; the
    // first found in adjacency order wins
    assert_eq!(p.edges, vec![0, 2, 4]);
    assert_eq!(p.flow, 0.0);
    assert_eq!(g.count_dejkstra, 1);
    let q = g.find_initial_path(5, 1).unwrap();
    assert_eq!(q.edges.len(), 3);
    assert_eq!(g.count_dejkstra, 2);
}

#[test]
fn initial_path_prefers_short_detour() {
    let n = network(
        &["s", "m", "t", "x"],
        vec![
            link("L1", "s", "x", Some(1.0), None),
            link("L2", "x", "m", Some(1.0), None),
            link("L3", "m", "t", Some(1.0), None),
            link("L4", "s", "t", Some(1.0), None),
        ],
        &[],
    );
    let mut g = build(&n);
    let p = g.find_initial_path(0, 2).unwrap();
    assert_eq!(p.edges, vec![6]);
}

#[test]
fn initial_path_to_itself_is_empty() {
    let mut g = build(&sample());
    let p = g.find_initial_path(4, 4).unwrap();
    assert!(p.edges.is_empty());
}

#[test]
fn initial_path_missing_when_unreachable() {
    let n = network(
        &["a", "b", "c"],
        vec![link("L1", "a", "b", Some(1.0), None)],
        &[],
    );
    let mut g = build(&n);
    assert!(g.find_initial_path(0, 2).is_none());
    assert!(g.find_initial_path(2, 2).is_some());
    assert_eq!(g.count_dejkstra, 2);
    // the search leaves the network itself alone
    assert_eq!(g.edges.len(), 2);
    assert_eq!(g.adj_list[0], vec![(1, 0)]);
}

#[test]
fn routes_can_be_followed_back() {
    let mut g = build(&sample());
    for u in 0..6 {
        for v in 0..6 {
            let there = g.find_initial_path(u, v);
            let back = g.find_initial_path(v, u);
            assert_eq!(there.is_some(), back.is_some());
            assert_eq!(there.map(|p| p.edges.len()), back.map(|p| p.edges.len()));
        }
    }
    let n = network(&["a", "b", "c"], vec![link("L1", "b", "c", Some(1.0), None)], &[]);
    let mut g = build(&n);
    assert!(g.find_initial_path(0, 2).is_none());
    assert!(g.find_initial_path(2, 0).is_none());
    let p = g.find_initial_path(2, 1).unwrap();
    assert_eq!(p.edges, vec![1]);
    let q = g.find_initial_path(1, 2).unwrap();
    assert_eq!(q.edges, vec![0]);
}

#[test]
fn adjacency_lists_hold_exactly_the_edges() {
    let g = build(&sample());
    for v in 0..g.nodes.len() {
        for (j, e) in g.edges.iter().enumerate() {
            assert_eq!(g.adj_list[v].contains(&(e.to, j)), e.from == v);
            assert_eq!(e.index, j);
        }
    }
}
