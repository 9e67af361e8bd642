use vstd::prelude::*;

use crate::graph_pm::graph::{Edge, Graph};
use crate::graph_pm::structure_xml::{Demand, Link, Network};
use crate::nodes::{index_nodes, last_position, law_last_position, lookup, names_distinct, node_ids, node_index};
use crate::path::Commodity;

verus! {

/// Why a network description cannot be turned into a graph.
#[derive(Debug)]
pub enum GraphError {
    /// A link has neither a preinstalled module nor additional modules.
    CapacityNotFound,
}

/// The link gives no capacity at all.
pub open spec fn missing_capacity<F>(link: Link<F>) -> bool {
    link.capacity is None && link.modules is None
}

/// The capacity of a link: that of its preinstalled module, or else that of
/// its first additional module.
pub open spec fn link_capacity<F>(link: Link<F>) -> F {
    match link.capacity {
        Some(m) => m.capacity,
        None => link.modules->0.add_module[0].capacity,
    }
}

/// The position of the first link without capacity, or the number of links.
pub open spec fn first_missing_capacity<F>(links: Seq<Link<F>>) -> int
    decreases links.len(),
{
    if links.len() == 0 {
        0
    } else if missing_capacity(links[0]) {
        0
    } else {
        1 + first_missing_capacity(links.drop_first())
    }
}

/// The node index that `name` stands for.
pub open spec fn name_index(ids: Seq<Seq<char>>, name: Seq<char>) -> usize {
    last_position(ids, name)->0
}

/// A network description from which a graph can be built: the links up to
/// the first one without capacity name known nodes, those before it lie
/// within the node range and have a module to take the capacity from, and
/// when every link has a capacity the demands name known nodes.
pub open spec fn buildable<F>(network: Network<F>) -> bool {
    let ids = node_ids(network.network_structure.nodes.nodes@);
    let n = ids.to_set().len();
    let links = network.network_structure.links.links@;
    let demands = network.demands.demands@;
    let m = first_missing_capacity(links);
    &&& 2 * links.len() + 1 <= usize::MAX
    &&& forall|i: int|
        0 <= i < links.len() && i <= m ==> last_position(ids, #[trigger] links[i].source@) is Some
            && last_position(ids, links[i].target@) is Some
    &&& forall|i: int|
        0 <= i < m ==> name_index(ids, #[trigger] links[i].source@) < n && name_index(
            ids,
            links[i].target@,
        ) < n && (links[i].capacity is None ==> links[i].modules->0.add_module.len() > 0)
    &&& m == links.len() ==> forall|k: int|
        0 <= k < demands.len() ==> last_position(ids, #[trigger] demands[k].source@) is Some
            && last_position(ids, demands[k].target@) is Some
}

/// The endpoints of the links as node indices.
pub open spec fn link_ends<F>(ids: Seq<Seq<char>>, links: Seq<Link<F>>) -> Seq<(usize, usize)> {
    links.map_values(|l: Link<F>| (name_index(ids, l.source@), name_index(ids, l.target@)))
}

/// The adjacency lists of `n` nodes joined by the links with endpoints
/// `ends`: link `i` from `f` to `t` adds `(t, 2 * i)` to the list of `f`, and
/// then `(f, 2 * i + 1)` to the list of `t`.
pub open spec fn adjacency(n: nat, ends: Seq<(usize, usize)>) -> Seq<Seq<(usize, usize)>>
    decreases ends.len(),
{
    if ends.len() == 0 {
        Seq::new(n, |u: int| Seq::<(usize, usize)>::empty())
    } else {
        let a = adjacency(n, ends.drop_last());
        let i = ends.len() - 1;
        let (f, t) = ends.last();
        let a1 = a.update(f as int, a[f as int].push((t, (2 * i) as usize)));
        a1.update(t as int, a1[t as int].push((f, (2 * i + 1) as usize)))
    }
}

/// The rows of an adjacency structure.
pub open spec fn rows(adj: Seq<Vec<(usize, usize)>>) -> Seq<Seq<(usize, usize)>> {
    adj.map_values(|r: Vec<(usize, usize)>| r@)
}

proof fn lemma_first_missing<F>(links: Seq<Link<F>>)
    ensures
        0 <= first_missing_capacity(links) <= links.len(),
        forall|i: int| 0 <= i < first_missing_capacity(links) ==> !missing_capacity(#[trigger] links[i]),
        first_missing_capacity(links) < links.len() ==> missing_capacity(links[first_missing_capacity(links)]),
    decreases links.len(),
{
    if links.len() > 0 && !missing_capacity(links[0]) {
        let rest = links.drop_first();
        lemma_first_missing(rest);
        assert forall|i: int| 0 <= i < first_missing_capacity(links) implies !missing_capacity(#[trigger] links[i]) by {
            if i > 0 {
                assert(links[i] == rest[i - 1]);
            }
        }
        if first_missing_capacity(links) < links.len() {
            assert(links[first_missing_capacity(links)] == rest[first_missing_capacity(rest)]);
        }
    }
}

impl<F: Copy + Default> Graph<F> {
    /// Whether `from_network` can build a graph from `network` without
    /// running outside the node table or the module list.
    pub fn network_is_buildable(network: &Network<F>) -> (r: bool)
        ensures
            r == buildable(*network),
    {
        let ghost ids = node_ids(network.network_structure.nodes.nodes@);
        let links = &network.network_structure.links.links;
        let demands = &network.demands.demands;
        let table = index_nodes(&network.network_structure.nodes.nodes);
        let n = table.len();
        proof {
            lemma_first_missing(links@);
        }
        if links.len() > (usize::MAX - 1) / 2 {
            return false;
        }
        let mut i: usize = 0;
        while i < links.len()
            invariant
                i <= links.len(),
                ids == node_ids(network.network_structure.nodes.nodes@),
                *links == network.network_structure.links.links,
                2 * links.len() + 1 <= usize::MAX,
                n == table@.len(),
                n == ids.to_set().len(),
                names_distinct(table@),
                forall|name: Seq<char>| #[trigger] lookup(table@, name) == last_position(ids, name),
                i <= first_missing_capacity(links@),
                0 <= first_missing_capacity(links@) <= links@.len(),
                forall|k: int| 0 <= k < first_missing_capacity(links@) ==> !missing_capacity(#[trigger] links@[k]),
                first_missing_capacity(links@) < links@.len() ==> missing_capacity(links@[first_missing_capacity(links@)]),
                forall|k: int|
                    0 <= k < i ==> last_position(ids, #[trigger] links@[k].source@) is Some
                        && last_position(ids, links@[k].target@) is Some,
                forall|k: int|
                    0 <= k < i ==> name_index(ids, #[trigger] links@[k].source@) < n && name_index(
                        ids,
                        links@[k].target@,
                    ) < n && (links@[k].capacity is None ==> links@[k].modules->0.add_module.len() > 0),
            decreases links.len() - i,
        {
            let link = &links[i];
            let ghost m = first_missing_capacity(links@);
            let from = node_index(&table, &link.source);
            let to = node_index(&table, &link.target);
            proof {
                assert(lookup(table@, link.source@) == last_position(ids, link.source@));
                assert(lookup(table@, link.target@) == last_position(ids, link.target@));
            }
            if from.is_none() || to.is_none() {
                proof {
                    assert(!(last_position(ids, links@[i as int].source@) is Some && last_position(ids, links@[i as int].target@) is Some));
                }
                return false;
            }
            match (&link.capacity, &link.modules) {
                (None, None) => {
                    proof {
                        assert(missing_capacity(links@[i as int]));
                        assert(i as int == first_missing_capacity(links@));
                    }
                    return true;
                },
                (None, Some(modules)) => {
                    if modules.add_module.len() == 0 {
                        proof {
                            assert(!missing_capacity(links@[i as int]));
                            assert(i < m);
                            assert(!(links@[i as int].capacity is None ==> links@[i as int].modules->0.add_module.len() > 0));
                        }
                        return false;
                    }
                },
                _ => {},
            }
            proof {
                assert(!missing_capacity(links@[i as int]));
                assert(i < m);
            }
            if from.unwrap() >= n || to.unwrap() >= n {
                proof {
                    assert(!(name_index(ids, links@[i as int].source@) < n && name_index(ids, links@[i as int].target@) < n));
                }
                return false;
            }
            i += 1;
        }
        let mut k: usize = 0;
        assert(first_missing_capacity(links@) == links@.len());
        while k < demands.len()
            invariant
                first_missing_capacity(network.network_structure.links.links@) == network.network_structure.links.links@.len(),
                k <= demands.len(),
                ids == node_ids(network.network_structure.nodes.nodes@),
                *demands == network.demands.demands,
                names_distinct(table@),
                forall|name: Seq<char>| #[trigger] lookup(table@, name) == last_position(ids, name),
                forall|j: int|
                    0 <= j < k ==> last_position(ids, #[trigger] demands@[j].source@) is Some
                        && last_position(ids, demands@[j].target@) is Some,
            decreases demands.len() - k,
        {
            let d = &demands[k];
            let s = node_index(&table, &d.source);
            let t = node_index(&table, &d.target);
            proof {
                assert(lookup(table@, d.source@) == last_position(ids, d.source@));
                assert(lookup(table@, d.target@) == last_position(ids, d.target@));
            }
            if s.is_none() || t.is_none() {
                proof {
                    assert(!(last_position(ids, demands@[k as int].source@) is Some && last_position(ids, demands@[k as int].target@) is Some));
                }
                return false;
            }
            k += 1;
        }
        true
    }
}

/// `e` is the edge from `from` to `to` with capacity `capacity` at position
/// `index`, carrying no flow yet.
pub open spec fn fresh_edge<F: Default>(e: Edge<F>, from: usize, to: usize, capacity: F, index: usize) -> bool {
    &&& e.from == from
    &&& e.to == to
    &&& e.capacity == capacity
    &&& e.index == index
    &&& call_ensures(F::default, (), e.flow)
}

/// `c` is the commodity of demand `d`, with no routes yet.
pub open spec fn fresh_commodity<F>(c: Commodity<F>, ids: Seq<Seq<char>>, d: Demand<F>) -> bool {
    &&& c.source == name_index(ids, d.source@)
    &&& c.target == name_index(ids, d.target@)
    &&& c.demand == d.value
    &&& c.paths@.len() == 0
}

/// The graph built from `network`: nodes indexed as by successive map
/// inserts, two opposite edges per link in link order, adjacency lists
/// filled in link order, one commodity per demand, and no search made.
pub open spec fn built_from<F: Default>(g: Graph<F>, network: Network<F>) -> bool {
    let ids = node_ids(network.network_structure.nodes.nodes@);
    let links = network.network_structure.links.links@;
    let demands = network.demands.demands@;
    let ends = link_ends(ids, links);
    &&& names_distinct(g.nodes@)
    &&& forall|name: Seq<char>| #[trigger] lookup(g.nodes@, name) == last_position(ids, name)
    &&& g.nodes@.len() == ids.to_set().len()
    &&& g.edges@.len() == 2 * links.len()
    &&& forall|i: int|
        0 <= i < links.len() ==> fresh_edge(
            #[trigger] g.edges@[2 * i],
            ends[i].0,
            ends[i].1,
            link_capacity(links[i]),
            (2 * i) as usize,
        ) && fresh_edge(g.edges@[2 * i + 1], ends[i].1, ends[i].0, link_capacity(links[i]), (2 * i + 1) as usize)
    &&& forall|e: int|
        0 <= e < g.edges@.len() ==> (#[trigger] g.edges@[e]).from < g.nodes@.len() && g.edges@[e].to
            < g.nodes@.len()
    &&& rows(g.adj_list@) == adjacency(g.nodes@.len(), ends)
    &&& g.commodities@.len() == demands.len()
    &&& forall|k: int| 0 <= k < demands.len() ==> fresh_commodity(#[trigger] g.commodities@[k], ids, demands[k])
    &&& g.count_dejkstra == 0
}

impl<F: Copy + Default> Graph<F> {
    /// Builds the graph of a network description: each link becomes two
    /// opposite edges, each demand a commodity. Fails when a link has no
    /// capacity.
    pub fn from_network(network: &Network<F>) -> (r: Result<Graph<F>, GraphError>)
        requires
            buildable(*network),
        ensures
            (r is Err) == (first_missing_capacity(network.network_structure.links.links@)
                < network.network_structure.links.links@.len()),
            r matches Ok(g) ==> g.wf() && built_from(g, *network),
    {
        let ghost ids = node_ids(network.network_structure.nodes.nodes@);
        let links = &network.network_structure.links.links;
        let demands = &network.demands.demands;
        let ghost ends = link_ends(ids, links@);
        proof {
            lemma_first_missing(links@);
        }
        let nodes = index_nodes(&network.network_structure.nodes.nodes);
        let n = nodes.len();
        let mut edges: Vec<Edge<F>> = Vec::new();
        let mut temp_adj_list: Vec<Vec<(usize, usize)>> = Vec::new();
        let mut u: usize = 0;
        while u < n
            invariant
                u <= n,
                temp_adj_list@.len() == u,
                forall|k: int| 0 <= k < u ==> (#[trigger] temp_adj_list@[k])@.len() == 0,
            decreases n - u,
        {
            temp_adj_list.push(Vec::new());
            u += 1;
        }
        proof {
            assert(ends.take(0).len() == 0);
            let a0 = adjacency(n as nat, ends.take(0));
            assert(a0 == Seq::new(n as nat, |u: int| Seq::<(usize, usize)>::empty()));
            assert forall|k: int| 0 <= k < n implies #[trigger] rows(temp_adj_list@)[k] =~= a0[k] by {
                assert(temp_adj_list@[k]@.len() == 0);
            }
            assert(rows(temp_adj_list@) =~= a0);
        }
        let mut idx: usize = 0;
        while idx < links.len()
            invariant
                ids == node_ids(network.network_structure.nodes.nodes@),
                *links == network.network_structure.links.links,
                ends == link_ends(ids, links@),
                buildable(*network),
                idx <= links.len(),
                idx <= first_missing_capacity(links@),
                0 <= first_missing_capacity(links@) <= links@.len(),
                forall|k: int| 0 <= k < first_missing_capacity(links@) ==> !missing_capacity(#[trigger] links@[k]),
                first_missing_capacity(links@) < links@.len() ==> missing_capacity(links@[first_missing_capacity(links@)]),
                n == nodes@.len(),
                n == ids.to_set().len(),
                names_distinct(nodes@),
                forall|name: Seq<char>| #[trigger] lookup(nodes@, name) == last_position(ids, name),
                edges@.len() == 2 * idx,
                forall|i: int|
                    0 <= i < idx ==> fresh_edge(
                        #[trigger] edges@[2 * i],
                        ends[i].0,
                        ends[i].1,
                        link_capacity(links@[i]),
                        (2 * i) as usize,
                    ) && fresh_edge(edges@[2 * i + 1], ends[i].1, ends[i].0, link_capacity(links@[i]), (2 * i + 1) as usize),
                forall|e: int| 0 <= e < edges@.len() ==> (#[trigger] edges@[e]).from < n && edges@[e].to < n,
                temp_adj_list@.len() == n,
                rows(temp_adj_list@) == adjacency(n as nat, ends.take(idx as int)),
                forall|a: int, j: int|
                    0 <= a < n && 0 <= j < temp_adj_list@[a]@.len() ==> {
                        let (v, e) = #[trigger] temp_adj_list@[a]@[j];
                        &&& v < n
                        &&& e < edges@.len()
                        &&& edges@[e as int].from == a
                        &&& edges@[e as int].to == v
                    },
            decreases links.len() - idx,
        {
            let link = &links[idx];
            proof {
                assert(ends[idx as int] == (name_index(ids, link.source@), name_index(ids, link.target@)));
                assert(lookup(nodes@, link.source@) == last_position(ids, link.source@));
                assert(lookup(nodes@, link.target@) == last_position(ids, link.target@));
            }
            let from = match node_index(&nodes, &link.source) {
                Some(v) => v,
                None => unreached(),
            };
            let to = match node_index(&nodes, &link.target) {
                Some(v) => v,
                None => unreached(),
            };
            let capacity = match &link.capacity {
                Some(value) => value.capacity,
                None => {
                    match &link.modules {
                        Some(module) => module.add_module[0].capacity,
                        None => {
                            return Err(GraphError::CapacityNotFound);
                        },
                    }
                },
            };
            proof {
                assert(!missing_capacity(links@[idx as int]));
                assert(idx < first_missing_capacity(links@));
                assert(capacity == link_capacity(links@[idx as int]));
            }
            let edge_idx_forward = idx * 2;
            let edge_idx_backward = idx * 2 + 1;
            let ghost old_edges = edges@;
            let ghost old_adj = temp_adj_list@;
            edges.push(Edge::new(from, to, capacity, edge_idx_forward));
            edges.push(Edge::new(to, from, capacity, edge_idx_backward));
            temp_adj_list[from].push((to, edge_idx_forward));
            let ghost mid_adj = temp_adj_list@;
            temp_adj_list[to].push((from, edge_idx_backward));
            proof {
                let a = adjacency(n as nat, ends.take(idx as int));
                assert(ends.take(idx + 1).drop_last() =~= ends.take(idx as int));
                assert(ends.take(idx + 1).last() == (from, to));
                assert(rows(mid_adj) =~= a.update(from as int, a[from as int].push((to, edge_idx_forward))));
                assert(rows(temp_adj_list@) =~= adjacency(n as nat, ends.take(idx + 1)));
                assert forall|i: int| 0 <= i < idx + 1 implies fresh_edge(
                        #[trigger] edges@[2 * i],
                        ends[i].0,
                        ends[i].1,
                        link_capacity(links@[i]),
                        (2 * i) as usize,
                    ) && fresh_edge(edges@[2 * i + 1], ends[i].1, ends[i].0, link_capacity(links@[i]), (2 * i + 1) as usize) by {
                    if i < idx {
                        assert(edges@[2 * i] == old_edges[2 * i]);
                        assert(edges@[2 * i + 1] == old_edges[2 * i + 1]);
                    }
                }
                assert forall|a: int, j: int|
                    0 <= a < n && 0 <= j < temp_adj_list@[a]@.len() implies {
                        let (v, e) = #[trigger] temp_adj_list@[a]@[j];
                        &&& v < n
                        &&& e < edges@.len()
                        &&& edges@[e as int].from == a
                        &&& edges@[e as int].to == v
                    } by {
                    let (v, e) = temp_adj_list@[a]@[j];
                    if j < old_adj[a]@.len() {
                        assert(temp_adj_list@[a]@[j] == old_adj[a]@[j]);
                        assert(edges@[e as int] == old_edges[e as int]);
                    }
                }
            }
            idx += 1;
        }
        proof {
            assert(ends.take(links@.len() as int) =~= ends);
        }
        let mut commodities: Vec<Commodity<F>> = Vec::new();
        let mut k: usize = 0;
        while k < demands.len()
            invariant
                ids == node_ids(network.network_structure.nodes.nodes@),
                *demands == network.demands.demands,
                first_missing_capacity(network.network_structure.links.links@) == network.network_structure.links.links@.len(),
                buildable(*network),
                names_distinct(nodes@),
                forall|name: Seq<char>| #[trigger] lookup(nodes@, name) == last_position(ids, name),
                k <= demands.len(),
                commodities@.len() == k,
                forall|j: int| 0 <= j < k ==> fresh_commodity(#[trigger] commodities@[j], ids, demands@[j]),
            decreases demands.len() - k,
        {
            let demand = &demands[k];
            proof {
                assert(lookup(nodes@, demand.source@) == last_position(ids, demand.source@));
                assert(lookup(nodes@, demand.target@) == last_position(ids, demand.target@));
                assert(last_position(ids, demands@[k as int].source@) is Some);
            }
            let source = match node_index(&nodes, &demand.source) {
                Some(v) => v,
                None => unreached(),
            };
            let target = match node_index(&nodes, &demand.target) {
                Some(v) => v,
                None => unreached(),
            };
            commodities.push(Commodity { source, target, demand: demand.value, paths: Vec::new() });
            k += 1;
        }
        let g = Graph {
            nodes,
            edges,
            commodities,
            count_dejkstra: 0usize,
            adj_list: temp_adj_list,
        };
        Ok(g)
    }
}

proof fn lemma_adjacency_len(n: nat, ends: Seq<(usize, usize)>)
    requires
        forall|k: int| 0 <= k < ends.len() ==> (#[trigger] ends[k]).0 < n && ends[k].1 < n,
    ensures
        adjacency(n, ends).len() == n,
    decreases ends.len(),
{
    if ends.len() > 0 {
        let rest = ends.drop_last();
        assert forall|k: int| 0 <= k < rest.len() implies (#[trigger] rest[k]).0 < n && rest[k].1 < n by {
            assert(rest[k] == ends[k]);
        }
        lemma_adjacency_len(n, rest);
        assert(ends[ends.len() - 1] == ends.last());
    }
}

/// Every link leaves its two entries in the adjacency lists.
proof fn lemma_adjacency_has_link(n: nat, ends: Seq<(usize, usize)>, i: int)
    requires
        0 <= i < ends.len(),
        forall|k: int| 0 <= k < ends.len() ==> (#[trigger] ends[k]).0 < n && ends[k].1 < n,
    ensures
        adjacency(n, ends)[ends[i].0 as int].contains((ends[i].1, (2 * i) as usize)),
        adjacency(n, ends)[ends[i].1 as int].contains((ends[i].0, (2 * i + 1) as usize)),
    decreases ends.len(),
{
    let rest = ends.drop_last();
    let a = adjacency(n, rest);
    let last = ends.len() - 1;
    let (f, t) = ends.last();
    let a1 = a.update(f as int, a[f as int].push((t, (2 * last) as usize)));
    let a2 = a1.update(t as int, a1[t as int].push((f, (2 * last + 1) as usize)));
    assert forall|k: int| 0 <= k < rest.len() implies (#[trigger] rest[k]).0 < n && rest[k].1 < n by {
        assert(rest[k] == ends[k]);
    }
    lemma_adjacency_len(n, rest);
    assert(ends[last] == (f, t));
    assert(adjacency(n, ends) == a2);
    if i == last {
        assert(a1[f as int].last() == (t, (2 * last) as usize));
        assert(a1[f as int].contains((t, (2 * last) as usize)));
        assert(a2[t as int].last() == (f, (2 * last + 1) as usize));
        if f == t {
            assert(a2[f as int][a1[f as int].len() - 1] == (t, (2 * last) as usize));
        }
    } else {
        lemma_adjacency_has_link(n, rest, i);
        assert(rest[i] == ends[i]);
        let (fi, ti) = ends[i];
        let x = (ti, (2 * i) as usize);
        let y = (fi, (2 * i + 1) as usize);
        assert(a[fi as int].contains(x));
        assert(a[ti as int].contains(y));
        let jx = choose|j: int| 0 <= j < a[fi as int].len() && a[fi as int][j] == x;
        let jy = choose|j: int| 0 <= j < a[ti as int].len() && a[ti as int][j] == y;
        assert(a2[fi as int][jx] == x);
        assert(a2[ti as int][jy] == y);
    }
}

/// The edge paired with `e` by its link: `2 * i` and `2 * i + 1` run the
/// same link in opposite directions.
pub open spec fn partner(e: usize) -> usize {
    if e % 2 == 0 {
        (e + 1) as usize
    } else {
        (e - 1) as usize
    }
}

proof fn lemma_step_reverses<F: Default>(g: &Graph<F>, network: Network<F>, u: int, e: usize, v: int)
    requires
        g.wf(),
        built_from(*g, network),
        g.step(u, e, v),
    ensures
        g.step(v, partner(e), u),
{
    let ids = node_ids(network.network_structure.nodes.nodes@);
    let links = network.network_structure.links.links@;
    let ends = link_ends(ids, links);
    let n = g.nodes@.len();
    let j = choose|j: int| 0 <= j < g.adj_list@[u]@.len() && g.adj_list@[u]@[j] == (v as usize, e);
    assert(g.adj_list@[u]@[j] == (v as usize, e));
    assert(e < g.edges@.len());
    assert(g.edges@[e as int].from == u);
    assert(g.edges@[e as int].to == v as usize);
    assert forall|k: int| 0 <= k < ends.len() implies (#[trigger] ends[k]).0 < n && ends[k].1 < n by {
        assert(fresh_edge(g.edges@[2 * k], ends[k].0, ends[k].1, link_capacity(links[k]), (2 * k) as usize));
        assert(g.edges@[2 * k].from < n);
        assert(g.edges@[2 * k].to < n);
    }
    let i = e as int / 2;
    assert(0 <= i < links.len());
    assert(rows(g.adj_list@) == adjacency(n, ends));
    lemma_adjacency_has_link(n, ends, i);
    assert(fresh_edge(g.edges@[2 * i], ends[i].0, ends[i].1, link_capacity(links[i]), (2 * i) as usize));
    assert(fresh_edge(g.edges@[2 * i + 1], ends[i].1, ends[i].0, link_capacity(links[i]), (2 * i + 1) as usize));
    assert(0 <= v < n);
    assert(0 <= u < n);
    assert(g.nodes@.len() == g.nodes.len());
    assert((u as usize) as int == u);
    assert((v as usize) as int == v);
    assert(rows(g.adj_list@)[v] == g.adj_list@[v]@);
    if e % 2 == 0 {
        assert(e as int == 2 * i);
        assert(ends[i].0 as int == u);
        assert(ends[i].1 as int == v);
        assert(partner(e) == (2 * i + 1) as usize);
        assert(adjacency(n, ends)[v].contains((ends[i].0, (2 * i + 1) as usize)));
        assert(g.adj_list@[v]@.contains((u as usize, partner(e))));
    } else {
        assert(e as int == 2 * i + 1);
        assert(ends[i].1 as int == u);
        assert(ends[i].0 as int == v);
        assert(partner(e) == (2 * i) as usize);
        assert(adjacency(n, ends)[v].contains((ends[i].1, (2 * i) as usize)));
        assert(g.adj_list@[v]@.contains((u as usize, partner(e))));
    }
}

proof fn lemma_walk_prepend<F>(g: &Graph<F>, b: int, e: usize, x: int, q: Seq<usize>, a: int)
    requires
        g.wf(),
        g.step(b, e, x),
        g.is_walk(x, q, a),
    ensures
        g.is_walk(b, seq![e].add(q), a),
    decreases q.len(),
{
    let j = choose|j: int| 0 <= j < g.adj_list@[b]@.len() && g.adj_list@[b]@[j] == (x as usize, e);
    assert(g.adj_list@[b]@[j] == (x as usize, e));
    let p = seq![e].add(q);
    assert(g.nodes@.len() == g.nodes.len());
    assert((b as usize) as int == b);
    assert(g.edges@[e as int].from as int == b);
    assert(g.edges@[e as int].to as int == x);
    if q.len() == 0 {
        assert(x == a);
        assert(p.drop_last() =~= Seq::<usize>::empty());
        assert(p.last() == e);
        assert(g.is_walk(b, p.drop_last(), g.edges@[e as int].from as int));
        assert(g.step(g.edges@[e as int].from as int, e, a));
    } else {
        let q1 = q.drop_last();
        let y = g.edges@[q.last() as int].from as int;
        assert(g.is_walk(x, q1, y));
        lemma_walk_prepend(g, b, e, x, q1, y);
        assert(p.drop_last() =~= seq![e].add(q1));
        assert(p.last() == q.last());
        assert(g.step(y, q.last(), a));
    }
}

/// In a graph built from a network description every walk can be followed
/// back over the opposite edges of the same links, so a node that can be
/// reached from another can reach it in turn.
pub proof fn law_reachability_symmetric<F: Default>(g: &Graph<F>, network: Network<F>, u: int, v: int)
    requires
        g.wf(),
        built_from(*g, network),
        g.reachable(u, v),
    ensures
        g.reachable(v, u),
{
    let p = choose|p: Seq<usize>| #[trigger] g.is_walk(u, p, v);
    let q = lemma_walk_back(g, network, u, p, v);
    assert(g.is_walk(v, q, u));
}

proof fn lemma_walk_back<F: Default>(g: &Graph<F>, network: Network<F>, a: int, p: Seq<usize>, b: int) -> (q: Seq<usize>)
    requires
        g.wf(),
        built_from(*g, network),
        g.is_walk(a, p, b),
    ensures
        g.is_walk(b, q, a),
    decreases p.len(),
{
    if p.len() == 0 {
        Seq::empty()
    } else {
        let e = p.last();
        let x = g.edges@[e as int].from as int;
        let q1 = lemma_walk_back(g, network, a, p.drop_last(), x);
        lemma_step_reverses(g, network, x, e, b);
        lemma_walk_prepend(g, b, partner(e), x, q1, a);
        seq![partner(e)].add(q1)
    }
}

/// In a graph built from a network description the adjacency lists hold
/// exactly the edges: `(w, j)` is in the list of `v` just when edge `j` runs
/// from `v` to `w`; and every edge records its own position.
pub proof fn law_adjacency_lists_are_the_edges<F: Default>(
    g: &Graph<F>,
    network: Network<F>,
    v: int,
    w: usize,
    j: usize,
)
    requires
        g.wf(),
        built_from(*g, network),
        0 <= v < g.nodes@.len(),
    ensures
        g.adj_list@[v]@.contains((w, j)) <==> (j < g.edges@.len() && g.edges@[j as int].from == v
            && g.edges@[j as int].to == w),
        j < g.edges@.len() ==> g.edges@[j as int].index == j,
{
    let ids = node_ids(network.network_structure.nodes.nodes@);
    let links = network.network_structure.links.links@;
    let ends = link_ends(ids, links);
    let n = g.nodes@.len();
    if g.adj_list@[v]@.contains((w, j)) {
        let k = choose|k: int| 0 <= k < g.adj_list@[v]@.len() && g.adj_list@[v]@[k] == (w, j);
        assert(g.adj_list@[v]@[k] == (w, j));
    }
    if j < g.edges@.len() {
        let i = j as int / 2;
        assert(0 <= i < links.len());
        assert(fresh_edge(g.edges@[2 * i], ends[i].0, ends[i].1, link_capacity(links[i]), (2 * i) as usize));
        assert(fresh_edge(g.edges@[2 * i + 1], ends[i].1, ends[i].0, link_capacity(links[i]), (2 * i + 1) as usize));
        if g.edges@[j as int].from == v && g.edges@[j as int].to == w {
            assert forall|k: int| 0 <= k < ends.len() implies (#[trigger] ends[k]).0 < n && ends[k].1 < n by {
                assert(fresh_edge(g.edges@[2 * k], ends[k].0, ends[k].1, link_capacity(links[k]), (2 * k) as usize));
                assert(g.edges@[2 * k].from < n);
                assert(g.edges@[2 * k].to < n);
            }
            lemma_adjacency_has_link(n, ends, i);
            assert(rows(g.adj_list@)[v] == g.adj_list@[v]@);
            if j as int == 2 * i {
                assert(ends[i].0 as int == v);
                assert(adjacency(n, ends)[v].contains((ends[i].1, (2 * i) as usize)));
            } else {
                assert(j as int == 2 * i + 1);
                assert(ends[i].1 as int == v);
                assert(adjacency(n, ends)[v].contains((ends[i].0, (2 * i + 1) as usize)));
            }
        }
    }
}

/// Building fails exactly when some link has neither a preinstalled module
/// nor additional modules.
pub proof fn law_build_fails_on_missing_capacity<F>(links: Seq<Link<F>>)
    ensures
        (first_missing_capacity(links) < links.len()) <==> exists|i: int|
            0 <= i < links.len() && (#[trigger] links[i]).capacity is None && links[i].modules is None,
{
    lemma_first_missing(links);
    if exists|i: int| 0 <= i < links.len() && (#[trigger] links[i]).capacity is None && links[i].modules is None {
        let i = choose|i: int| 0 <= i < links.len() && (#[trigger] links[i]).capacity is None && links[i].modules is None;
        assert(missing_capacity(links[i]));
    } else if first_missing_capacity(links) < links.len() {
        assert(missing_capacity(links[first_missing_capacity(links)]));
    }
}

/// A description whose node names are distinct, whose links and demands
/// only name listed nodes, whose links all have a preinstalled module or a
/// non-empty list of additional modules, and whose edge positions fit a
/// `usize`, can be built.
pub proof fn law_well_named_network_is_buildable<F>(network: Network<F>)
    requires
        ({
            let nodes = network.network_structure.nodes.nodes@;
            let links = network.network_structure.links.links@;
            let demands = network.demands.demands@;
            &&& 2 * links.len() + 1 <= usize::MAX
            &&& forall|j: int, k: int| 0 <= j < k < nodes.len() ==> nodes[j].id@ != nodes[k].id@
            &&& forall|i: int|
                0 <= i < links.len() ==> (exists|j: int| 0 <= j < nodes.len() && nodes[j].id@ == (#[trigger] links[i]).source@)
                    && (exists|j: int| 0 <= j < nodes.len() && nodes[j].id@ == links[i].target@)
                    && (links[i].capacity is Some || (links[i].modules is Some && links[i].modules->0.add_module.len() > 0))
            &&& forall|k: int|
                0 <= k < demands.len() ==> (exists|j: int| 0 <= j < nodes.len() && nodes[j].id@ == (#[trigger] demands[k]).source@)
                    && (exists|j: int| 0 <= j < nodes.len() && nodes[j].id@ == demands[k].target@)
        }),
    ensures
        buildable(network),
{
    let nodes = network.network_structure.nodes.nodes@;
    let ids = node_ids(nodes);
    let links = network.network_structure.links.links@;
    let demands = network.demands.demands@;
    assert(nodes.len() == network.network_structure.nodes.nodes.len());
    assert(ids.no_duplicates()) by {
        assert forall|j: int, k: int| 0 <= j < ids.len() && 0 <= k < ids.len() && j != k implies ids[j] != ids[k] by {
            if j < k {
                assert(nodes[j].id@ != nodes[k].id@);
            } else {
                assert(nodes[k].id@ != nodes[j].id@);
            }
        }
    }
    ids.unique_seq_to_set();
    assert forall|name: Seq<char>| (exists|j: int| 0 <= j < nodes.len() && nodes[j].id@ == name) implies
        last_position(ids, name) is Some && name_index(ids, name) < ids.to_set().len() by {
        law_last_position(ids, name);
        let j = choose|j: int| 0 <= j < nodes.len() && nodes[j].id@ == name;
        assert(ids[j] == name);
    }
    lemma_first_missing(links);
    if first_missing_capacity(links) < links.len() {
        let m = first_missing_capacity(links);
        assert(missing_capacity(links[m]));
        assert(links[m].capacity is Some || links[m].modules is Some);
    }
    assert forall|i: int| 0 <= i < links.len() implies last_position(ids, #[trigger] links[i].source@) is Some
        && last_position(ids, links[i].target@) is Some && name_index(ids, links[i].source@) < ids.to_set().len()
        && name_index(ids, links[i].target@) < ids.to_set().len() by {
        assert(exists|j: int| 0 <= j < nodes.len() && nodes[j].id@ == links[i].source@);
        assert(exists|j: int| 0 <= j < nodes.len() && nodes[j].id@ == links[i].target@);
    }
    assert forall|k: int| 0 <= k < demands.len() implies last_position(ids, #[trigger] demands[k].source@) is Some
        && last_position(ids, demands[k].target@) is Some by {
        assert(exists|j: int| 0 <= j < nodes.len() && nodes[j].id@ == demands[k].source@);
        assert(exists|j: int| 0 <= j < nodes.len() && nodes[j].id@ == demands[k].target@);
    }
}

/// The two edges built from link `i` run between the nodes it names, each
/// name standing for the last node listed under it: edge `2 * i` from the
/// source to the target, edge `2 * i + 1` back. Both have the capacity of the
/// link's preinstalled module if it has one, else that of the first of its
/// additional modules, whatever modules follow; each records its own
/// position and carries no flow yet.
pub proof fn law_link_edges<F: Default>(g: Graph<F>, network: Network<F>, i: int)
    requires
        buildable(network),
        built_from(g, network),
        forall|k: int|
            0 <= k < network.network_structure.links.links@.len() ==> !missing_capacity(
                #[trigger] network.network_structure.links.links@[k],
            ),
        0 <= i < network.network_structure.links.links@.len(),
    ensures
        ({
            let nodes = network.network_structure.nodes.nodes@;
            let link = network.network_structure.links.links@[i];
            let e0 = g.edges@[2 * i];
            let e1 = g.edges@[2 * i + 1];
            let f = e0.from as int;
            let t = e0.to as int;
            &&& 0 <= f < nodes.len() && nodes[f].id@ == link.source@
            &&& forall|k: int| f < k < nodes.len() ==> nodes[k].id@ != link.source@
            &&& 0 <= t < nodes.len() && nodes[t].id@ == link.target@
            &&& forall|k: int| t < k < nodes.len() ==> nodes[k].id@ != link.target@
            &&& e1.from == t && e1.to == f
            &&& e0.index == 2 * i && e1.index == 2 * i + 1
            &&& link.capacity matches Some(m) ==> e0.capacity == m.capacity && e1.capacity == m.capacity
            &&& link.capacity is None ==> e0.capacity == link.modules->0.add_module[0].capacity
                && e1.capacity == link.modules->0.add_module[0].capacity
            &&& call_ensures(F::default, (), e0.flow) && call_ensures(F::default, (), e1.flow)
        }),
{
    let nodes = network.network_structure.nodes.nodes@;
    let ids = node_ids(nodes);
    let links = network.network_structure.links.links@;
    let link = links[i];
    let ends = link_ends(ids, links);
    lemma_first_missing(links);
    if first_missing_capacity(links) < links.len() {
        assert(!missing_capacity(links[first_missing_capacity(links)]));
    }
    assert(last_position(ids, links[i].source@) is Some);
    assert(fresh_edge(g.edges@[2 * i], ends[i].0, ends[i].1, link_capacity(links[i]), (2 * i) as usize));
    assert(fresh_edge(g.edges@[2 * i + 1], ends[i].1, ends[i].0, link_capacity(links[i]), (2 * i + 1) as usize));
    assert(nodes.len() == network.network_structure.nodes.nodes.len());
    law_last_position(ids, link.source@);
    law_last_position(ids, link.target@);
    let f = g.edges@[2 * i].from as int;
    let t = g.edges@[2 * i].to as int;
    assert(f == last_position(ids, link.source@)->0);
    assert(t == last_position(ids, link.target@)->0);
    assert(ids[f] == nodes[f].id@);
    assert(ids[t] == nodes[t].id@);
    assert forall|k: int| f < k < nodes.len() implies nodes[k].id@ != link.source@ by {
        assert(ids[k] == nodes[k].id@);
    }
    assert forall|k: int| t < k < nodes.len() implies nodes[k].id@ != link.target@ by {
        assert(ids[k] == nodes[k].id@);
    }
}

/// Commodity `k` is demand `k`: between the nodes it names, each name
/// standing for the last node listed under it, with its value and no routes;
/// the graph has two edges per link, one commodity per demand, and no search
/// made.
pub proof fn law_demand_commodity<F: Default>(g: Graph<F>, network: Network<F>, k: int)
    requires
        buildable(network),
        built_from(g, network),
        forall|i: int|
            0 <= i < network.network_structure.links.links@.len() ==> !missing_capacity(
                #[trigger] network.network_structure.links.links@[i],
            ),
        0 <= k < network.demands.demands@.len(),
    ensures
        g.edges@.len() == 2 * network.network_structure.links.links@.len(),
        g.commodities@.len() == network.demands.demands@.len(),
        g.count_dejkstra == 0,
        ({
            let nodes = network.network_structure.nodes.nodes@;
            let d = network.demands.demands@[k];
            let c = g.commodities@[k];
            &&& c.source < nodes.len() && nodes[c.source as int].id@ == d.source@
            &&& forall|j: int| c.source < j < nodes.len() ==> nodes[j].id@ != d.source@
            &&& c.target < nodes.len() && nodes[c.target as int].id@ == d.target@
            &&& forall|j: int| c.target < j < nodes.len() ==> nodes[j].id@ != d.target@
            &&& c.demand == d.value
            &&& c.paths@.len() == 0
        }),
{
    let nodes = network.network_structure.nodes.nodes@;
    let ids = node_ids(nodes);
    let links = network.network_structure.links.links@;
    let d = network.demands.demands@[k];
    lemma_first_missing(links);
    if first_missing_capacity(links) < links.len() {
        assert(!missing_capacity(links[first_missing_capacity(links)]));
    }
    assert(fresh_commodity(g.commodities@[k], ids, d));
    assert(last_position(ids, network.demands.demands@[k].source@) is Some);
    assert(nodes.len() == network.network_structure.nodes.nodes.len());
    law_last_position(ids, d.source@);
    law_last_position(ids, d.target@);
    let c = g.commodities@[k];
    assert(c.source == last_position(ids, d.source@)->0);
    assert(c.target == last_position(ids, d.target@)->0);
    assert(ids[c.source as int] == nodes[c.source as int].id@);
    assert(ids[c.target as int] == nodes[c.target as int].id@);
    assert forall|j: int| c.source < j < nodes.len() implies nodes[j].id@ != d.source@ by {
        assert(ids[j] == nodes[j].id@);
    }
    assert forall|j: int| c.target < j < nodes.len() implies nodes[j].id@ != d.target@ by {
        assert(ids[j] == nodes[j].id@);
    }
}

} // verus!
