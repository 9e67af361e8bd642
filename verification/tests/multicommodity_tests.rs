use netflow::graph_pm::structure_xml::{Demand, Demands, Node, Nodes};
use netflow::multicommodity::graph::Graph;
use netflow::multicommodity::structure::{
    AddModule, AdditionalModules, Link, Links, Network, NetworkStructure, PreInstalledModule,
};

fn link(
    source: &str,
    target: &str,
    pre: Option<(f64, f64)>,
    add: Option<Vec<(f64, f64)>>,
    routing_cost: Option<f64>,
) -> Link<f64> {
    Link {
        id: format!("{}-{}", source, target),
        source: source.to_string(),
        target: target.to_string(),
        capacity: pre.map(|(capacity, cost)| PreInstalledModule { capacity, cost }),
        modules: add.map(|ms| AdditionalModules {
            add_module: ms.into_iter().map(|(capacity, cost)| AddModule { capacity, cost }).collect(),
        }),
        routing_cost,
    }
}

fn network(nodes: &[&str], links: Vec<Link<f64>>, demands: &[(&str, &str, f64)]) -> Network<f64> {
    Network {
        network_structure: NetworkStructure {
            nodes: Nodes { nodes: nodes.iter().map(|n| Node { id: n.to_string() }).collect() },
            links: Links { links },
        },
        demands: Demands {
            demands: demands
                .iter()
                .map(|(s, t, v)| Demand {
                    id: format!("{}{}", s, t),
                    source: s.to_string(),
                    target: t.to_string(),
                    value: *v,
                })
                .collect(),
        },
    }
}

fn sample() -> Network<f64> {
    network(
        &["a", "b", "c", "d"],
        vec![
            link("a", "b", Some((10.0, 2.0)), Some(vec![(50.0, 7.0), (60.0, 8.0)]), Some(0.5)),
            link("b", "c", None, Some(vec![(20.0, 3.0)]), None),
            link("c", "d", Some((30.0, 4.0)), None, None),
            link("d", "a", None, None, Some(1.5)),
        ],
        &[("a", "c", 4.0)],
    )
}

#[test]
fn build_takes_capacities_and_costs() {
    let n = sample();
    assert!(Graph::network_is_buildable(&n));
    let g = Graph::from_network(&n);
    assert_eq!(g.edges.len(), 8);
    let e = &g.edges[0];
    assert_eq!((e.from, e.to, e.index), (0, 1, 0));
    assert_eq!((e.capacity, e.cost_a, e.cost_b, e.flow), (10.0, 7.0, 0.5, 0.0));
    let r = &g.edges[1];
    assert_eq!((r.from, r.to, r.index), (1, 0, 1));
    assert_eq!((r.capacity, r.cost_a, r.cost_b), (10.0, 7.0, 0.5));
    // capacity from the first additional module, no linear cost given
    assert_eq!((g.edges[2].capacity, g.edges[2].cost_a, g.edges[2].cost_b), (20.0, 3.0, 0.0));
    // linear cost from the preinstalled module, no quadratic cost given
    assert_eq!((g.edges[4].capacity, g.edges[4].cost_a, g.edges[4].cost_b), (30.0, 0.0, 4.0));
    // nothing but a routing cost
    assert_eq!((g.edges[6].capacity, g.edges[6].cost_a, g.edges[6].cost_b), (0.0, 0.0, 1.5));
    assert_eq!(g.commodities.len(), 1);
    assert_eq!((g.commodities[0].source, g.commodities[0].target), (0, 2));
    assert_eq!(g.commodities[0].demand, 4.0);
    assert_eq!(g.get_call_dejkstra(), 0);
}

#[test]
fn unknown_names_or_empty_modules_are_not_buildable() {
    assert!(!Graph::network_is_buildable(&network(&["a"], vec![link("a", "z", None, None, None)], &[])));
    assert!(!Graph::network_is_buildable(&network(&["a"], vec![], &[("a", "z", 1.0)])));
    assert!(!Graph::network_is_buildable(&network(
        &["a", "b"],
        vec![link("a", "b", Some((1.0, 1.0)), Some(vec![]), None)],
        &[]
    )));
}

#[test]
fn path_exists_over_open_edges() {
    let g = Graph::from_network(&sample());
    let all = vec![true; g.edges.len()];
    assert!(g.path_exists(0, 3, &all));
    assert!(g.path_exists(2, 2, &all));
    // only the forward edges: a -> b -> c -> d -> a
    let forward: Vec<bool> = (0..g.edges.len()).map(|e| e % 2 == 0).collect();
    assert!(g.path_exists(1, 0, &forward));
    // close b -> c: nothing open leaves b
    let mut closed = forward.clone();
    closed[2] = false;
    assert!(!g.path_exists(1, 2, &closed));
    assert!(!g.path_exists(1, 0, &closed));
    assert!(g.path_exists(2, 1, &closed));
    // a target outside the node range is never reached
    assert!(!g.path_exists(0, 17, &all));
}

#[test]
fn call_counter_is_reported() {
    let mut g = Graph::from_network(&sample());
    g.call_dejkstra = 3;
    assert_eq!(g.get_call_dejkstra(), 3);
}

#[test]
fn search_that_stops_at_once_looks_at_no_edge() {
    // "a" repeats, so it stands for index 2 while there are only two nodes:
    // the edges of the link b - a leave the node range
    let n = network(&["a", "b", "a"], vec![link("b", "a", Some((1.0, 1.0)), None, None)], &[]);
    assert!(Graph::network_is_buildable(&n));
    let g = Graph::from_network(&n);
    assert_eq!(g.nodes.len(), 2);
    assert_eq!((g.edges[0].from, g.edges[0].to), (1, 2));
    let all = vec![true; g.edges.len()];
    assert!(g.path_exists(1, 1, &all));
    assert!(!g.path_exists(0, 1, &all));
}
