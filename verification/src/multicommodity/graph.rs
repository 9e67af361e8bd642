use vstd::prelude::*;
use vstd::set_lib::*;
use std::collections::VecDeque;

use crate::graph_pm::structure_xml::Demand;
use crate::multicommodity::structure::{Link, Network};
use crate::nodes::{index_nodes, last_position, law_last_position, lookup, names_distinct, node_ids, node_index};
use crate::graph_pm::construction::{fresh_commodity, name_index};
pub use crate::path::{add_path_if_unique, has_duplicate_path, Commodity, Path};

verus! {

/// A directed edge with its capacity, its flow, its position in the edge
/// list and the two coefficients of its quadratic cost.
pub struct Edge<F> {
    pub from: usize,
    pub to: usize,
    pub capacity: F,
    pub flow: F,
    pub index: usize,
    pub cost_a: F,
    pub cost_b: F,
}

impl<F> Edge<F> {
    /// An edge that carries no flow yet.
    pub fn new(from: usize, to: usize, capacity: F, index: usize, cost_a: F, cost_b: F) -> (e: Self)
        where F: Default,
        ensures
            e.from == from,
            e.to == to,
            e.capacity == capacity,
            e.index == index,
            e.cost_a == cost_a,
            e.cost_b == cost_b,
            call_ensures(F::default, (), e.flow),
    {
        Edge { from, to, capacity, flow: F::default(), index, cost_a, cost_b }
    }
}

/// A network with costs and its demands; `call_dejkstra` counts the route
/// searches made so far.
pub struct Graph<F> {
    pub nodes: Vec<(String, usize)>,
    pub edges: Vec<Edge<F>>,
    pub commodities: Vec<Commodity<F>>,
    pub call_dejkstra: usize,
}

impl<F> Graph<F> {
    /// `p` lists the edges of a walk from `src` to `dst` that uses only
    /// edges marked in `open`.
    pub open spec fn is_open_walk(&self, open: Seq<bool>, src: int, p: Seq<usize>, dst: int) -> bool
        decreases p.len(),
    {
        if p.len() == 0 {
            src == dst
        } else {
            let e = p.last() as int;
            &&& 0 <= e < self.edges@.len()
            &&& open[e]
            &&& self.edges@[e].to == dst
            &&& self.is_open_walk(open, src, p.drop_last(), self.edges@[e].from as int)
        }
    }

    /// Some walk over open edges leads from `src` to `dst`.
    pub open spec fn open_reachable(&self, open: Seq<bool>, src: int, dst: int) -> bool {
        exists|p: Seq<usize>| #[trigger] self.is_open_walk(open, src, p, dst)
    }

    /// `p` lists the edges of a walk over open edges from `src` to `dst` that
    /// does not pass through `t` on the way; it may end at `t`.
    pub open spec fn is_open_walk_avoiding(&self, open: Seq<bool>, src: int, p: Seq<usize>, dst: int, t: int) -> bool
        decreases p.len(),
    {
        if p.len() == 0 {
            src == dst
        } else {
            let e = p.last() as int;
            &&& 0 <= e < self.edges@.len()
            &&& open[e]
            &&& self.edges@[e].to == dst
            &&& self.edges@[e].from != t
            &&& self.is_open_walk_avoiding(open, src, p.drop_last(), self.edges@[e].from as int, t)
        }
    }

    /// `v` is not `t` and can be reached from `src` over open edges without
    /// passing through `t`: a search for `t` may expand it.
    pub open spec fn reached_before(&self, open: Seq<bool>, src: int, v: int, t: int) -> bool {
        &&& v != t
        &&& exists|p: Seq<usize>| #[trigger] self.is_open_walk_avoiding(open, src, p, v, t)
    }

    /// The number of route searches made so far.
    pub fn get_call_dejkstra(&self) -> (r: usize)
        ensures
            r == self.call_dejkstra,
    {
        self.call_dejkstra
    }
}

/// State of the search in `path_exists`: `seen` holds the nodes marked
/// visited, each reachable over open edges without passing `target`; the nodes in `done` have had all
/// their open edges followed; every visited node is done, queued or `current`.
spec fn search_inv<F>(
    g: &Graph<F>,
    open: Seq<bool>,
    source: int,
    target: int,
    visited: Seq<bool>,
    queue: Seq<usize>,
    seen: Set<int>,
    done: Set<int>,
    current: int,
) -> bool {
    let n = g.nodes@.len();
    &&& visited.len() == n
    &&& open.len() == g.edges@.len()
    &&& 0 <= source < n
    &&& seen.contains(source)
    &&& seen.finite()
    &&& seen.len() <= n
    &&& forall|v: int| #[trigger] seen.contains(v) <==> (0 <= v < n && visited[v])
    &&& forall|v: int| #[trigger] seen.contains(v) ==> exists|p: Seq<usize>| #[trigger] g.is_open_walk_avoiding(open, source, p, v, target)
    &&& forall|i: int| 0 <= i < queue.len() ==> seen.contains(#[trigger] queue[i] as int)
    &&& forall|v: int| #[trigger] done.contains(v) ==> seen.contains(v)
    &&& forall|v: int| #[trigger] seen.contains(v) ==> done.contains(v) || queue.contains(v as usize) || v == current
    &&& forall|e: int|
        0 <= e < g.edges@.len() && done.contains(#[trigger] g.edges@[e].from as int) && open[e] ==> seen.contains(g.edges@[e].to as int)
}

proof fn lemma_avoiding_is_open<F>(g: &Graph<F>, open: Seq<bool>, src: int, p: Seq<usize>, dst: int, t: int)
    requires
        g.is_open_walk_avoiding(open, src, p, dst, t),
    ensures
        g.is_open_walk(open, src, p, dst),
    decreases p.len(),
{
    if p.len() > 0 {
        lemma_avoiding_is_open(g, open, src, p.drop_last(), g.edges@[p.last() as int].from as int, t);
    }
}

proof fn lemma_open_walk_closed<F>(
    g: &Graph<F>,
    open: Seq<bool>,
    source: int,
    seen: Set<int>,
    p: Seq<usize>,
    w: int,
)
    requires
        seen.contains(source),
        forall|e: int|
            0 <= e < g.edges@.len() && seen.contains(#[trigger] g.edges@[e].from as int) && open[e] ==> seen.contains(g.edges@[e].to as int),
        g.is_open_walk(open, source, p, w),
    ensures
        seen.contains(w),
    decreases p.len(),
{
    if p.len() > 0 {
        let e = p.last() as int;
        lemma_open_walk_closed(g, open, source, seen, p.drop_last(), g.edges@[e].from as int);
    }
}

impl<F> Graph<F> {
    /// Whether `target` can be reached from `source` over the edges marked
    /// in `open`, searching breadth first from `source`.
    pub fn path_exists(&self, source: usize, target: usize, open: &Vec<bool>) -> (r: bool)
        requires
            source < self.nodes@.len(),
            open@.len() == self.edges@.len(),
            forall|e: int|
                0 <= e < self.edges@.len() && self.reached_before(open@, source as int, #[trigger] self.edges@[e].from as int, target as int)
                    ==> self.edges@[e].to < self.nodes@.len(),
        ensures
            r == self.open_reachable(open@, source as int, target as int),
    {
        let n = self.nodes.len();
        let mut visited: Vec<bool> = Vec::new();
        let mut k: usize = 0;
        while k < n
            invariant
                k <= n,
                visited@.len() == k,
                forall|i: int| 0 <= i < k ==> !visited@[i],
            decreases n - k,
        {
            visited.push(false);
            k += 1;
        }
        let mut queue: VecDeque<usize> = VecDeque::new();
        queue.push_back(source);
        visited.set(source, true);
        let ghost mut seen: Set<int> = set![source as int];
        let ghost mut done: Set<int> = Set::empty();
        proof {
            assert forall|v: int| #[trigger] seen.contains(v) <==> (0 <= v < n && visited@[v]) by {
                if 0 <= v < n && visited@[v] {
                    assert(v == source as int);
                }
            }
            assert(self.is_open_walk_avoiding(open@, source as int, Seq::empty(), source as int, target as int));
            assert(seen.len() == 1);
            assert(queue@[0] == source);
            assert forall|v: int| #[trigger] seen.contains(v) implies done.contains(v) || queue@.contains(v as usize) || v == -1 by {
                assert(queue@[0] == source);
            }
        }
        loop
            invariant
                n == self.nodes@.len(),
                source < n,
                forall|e: int|
                    0 <= e < self.edges@.len() && self.reached_before(open@, source as int, #[trigger] self.edges@[e].from as int, target as int)
                        ==> self.edges@[e].to < n,
                search_inv(self, open@, source as int, target as int, visited@, queue@, seen, done, -1),
                forall|v: int| #[trigger] done.contains(v) ==> v != target as int,
            decreases n - seen.len(), queue@.len(),
        {
            let ghost q0 = queue@;
            match queue.pop_front() {
                None => {
                    proof {
                        assert forall|v: int| #[trigger] seen.contains(v) implies done.contains(v) by {
                            if seen.contains(v) && !done.contains(v) {
                                assert(q0.contains(v as usize));
                            }
                        }
                        if self.open_reachable(open@, source as int, target as int) {
                            let p = choose|p: Seq<usize>| #[trigger] self.is_open_walk(open@, source as int, p, target as int);
                            lemma_open_walk_closed(self, open@, source as int, seen, p, target as int);
                        }
                    }
                    return false;
                },
                Some(vertex) => {
                    proof {
                        assert(q0[0] == vertex);
                        assert(seen.contains(vertex as int));
                    }
                    if vertex == target {
                        proof {
                            let p = choose|p: Seq<usize>| #[trigger] self.is_open_walk_avoiding(open@, source as int, p, target as int, target as int);
                            lemma_avoiding_is_open(self, open@, source as int, p, target as int, target as int);
                        }
                        return true;
                    }
                    let ghost q1 = queue@;
                    let ghost seen0 = seen;
                    proof {
                        assert(q1 =~= q0.drop_first());
                        assert forall|v: int| #[trigger] seen.contains(v) implies done.contains(v) || q1.contains(v as usize)
                            || v == vertex as int by {
                            if !done.contains(v) && v != vertex as int {
                                assert((v as usize) as int == v);
                                assert(q0.contains(v as usize));
                                let i = choose|i: int| 0 <= i < q0.len() && q0[i] == v as usize;
                                assert(i != 0);
                                assert(q1[i - 1] == v as usize);
                            }
                        }
                        assert forall|i: int| 0 <= i < q1.len() implies seen.contains(#[trigger] q1[i] as int) by {
                            assert(q1[i] == q0[i + 1]);
                        }
                    }
                    let mut edge_idx: usize = 0;
                    while edge_idx < self.edges.len()
                        invariant
                            n == self.nodes@.len(),
                            source < n,
                            vertex < n,
                            edge_idx <= self.edges@.len(),
                            forall|e: int|
                                0 <= e < self.edges@.len() && self.reached_before(open@, source as int, #[trigger] self.edges@[e].from as int, target as int)
                                    ==> self.edges@[e].to < n,
                            search_inv(self, open@, source as int, target as int, visited@, queue@, seen, done, vertex as int),
                            seen.contains(vertex as int),
                            vertex != target,
                            forall|v: int| #[trigger] done.contains(v) ==> v != target as int,
                            forall|e: int|
                                0 <= e < edge_idx && self.edges@[e].from == vertex && open@[e] ==> seen.contains(#[trigger] self.edges@[e].to as int),
                            seen0.subset_of(seen),
                            seen.len() >= seen0.len(),
                            seen.len() == seen0.len() ==> queue@.len() == q1.len(),
                        decreases self.edges@.len() - edge_idx,
                    {
                        let edge = &self.edges[edge_idx];
                        if edge.from == vertex && !visited[edge.to] && open[edge_idx] {
                            let ghost v = edge.to as int;
                            let ghost old_queue = queue@;
                            proof {
                                let p = choose|p: Seq<usize>| #[trigger] self.is_open_walk_avoiding(open@, source as int, p, vertex as int, target as int);
                                let p2 = p.push(edge_idx);
                                assert(p2.drop_last() =~= p);
                                assert(self.is_open_walk_avoiding(open@, source as int, p2, v, target as int));
                                assert(!seen.contains(v));
                                let seen2 = seen.insert(v);
                                assert(seen2.subset_of(set_int_range(0, n as int)));
                                lemma_int_range(0, n as int);
                                lemma_len_subset(seen2, set_int_range(0, n as int));
                            }
                            visited.set(edge.to, true);
                            queue.push_back(edge.to);
                            proof {
                                seen = seen.insert(v);
                                assert(queue@[old_queue.len() as int] == edge.to);
                                assert forall|i: int| 0 <= i < queue@.len() implies seen.contains(#[trigger] queue@[i] as int) by {
                                    if i < old_queue.len() {
                                        assert(queue@[i] == old_queue[i]);
                                    }
                                }
                                assert forall|w: int| #[trigger] seen.contains(w) implies done.contains(w) || queue@.contains(w as usize)
                                    || w == vertex as int by {
                                    if w == v {
                                        assert(queue@[old_queue.len() as int] == edge.to);
                                    } else if old_queue.contains(w as usize) {
                                        let i = choose|i: int| 0 <= i < old_queue.len() && old_queue[i] == w as usize;
                                        assert(queue@[i] == w as usize);
                                    }
                                }
                                assert forall|w: int| #[trigger] seen.contains(w) implies exists|p: Seq<usize>| #[trigger] self.is_open_walk_avoiding(open@, source as int, p, w, target as int) by {
                                    if w == v {
                                        let p = choose|p: Seq<usize>| #[trigger] self.is_open_walk_avoiding(open@, source as int, p, vertex as int, target as int);
                                        let p2 = p.push(edge_idx);
                                        assert(p2.drop_last() =~= p);
                                        assert(self.is_open_walk_avoiding(open@, source as int, p2, v, target as int));
                                    }
                                }
                            }
                        }
                        edge_idx += 1;
                    }
                    proof {
                        done = done.insert(vertex as int);
                    }
                },
            }
        }
    }
}

/// A network description from which `from_network` can build a graph: all
/// links and demands name known nodes, and a link with additional modules
/// lists at least one.
pub open spec fn buildable<F>(network: Network<F>) -> bool {
    let ids = node_ids(network.network_structure.nodes.nodes@);
    let links = network.network_structure.links.links@;
    let demands = network.demands.demands@;
    &&& 2 * links.len() + 1 <= usize::MAX
    &&& forall|i: int|
        0 <= i < links.len() ==> last_position(ids, #[trigger] links[i].source@) is Some
            && last_position(ids, links[i].target@) is Some
            && (links[i].modules is Some ==> links[i].modules->0.add_module.len() > 0)
    &&& forall|k: int|
        0 <= k < demands.len() ==> last_position(ids, #[trigger] demands[k].source@) is Some
            && last_position(ids, demands[k].target@) is Some
}

/// `c` is the capacity of the link: that of its preinstalled module, else
/// that of its first additional module, else the default value.
pub open spec fn capacity_is<F: Default>(link: Link<F>, c: F) -> bool {
    match link.capacity {
        Some(m) => c == m.capacity,
        None => match link.modules {
            Some(ms) => c == ms.add_module[0].capacity,
            None => call_ensures(F::default, (), c),
        },
    }
}

/// `c` is the linear cost coefficient of the link: its routing cost, else
/// the cost of its preinstalled module, else the default value.
pub open spec fn cost_b_is<F: Default>(link: Link<F>, c: F) -> bool {
    match link.routing_cost {
        Some(v) => c == v,
        None => match link.capacity {
            Some(m) => c == m.cost,
            None => call_ensures(F::default, (), c),
        },
    }
}

/// `c` is the quadratic cost coefficient of the link: the cost of its first
/// additional module, else the default value.
pub open spec fn cost_a_is<F: Default>(link: Link<F>, c: F) -> bool {
    match link.modules {
        Some(ms) => c == ms.add_module[0].cost,
        None => call_ensures(F::default, (), c),
    }
}

/// `e` is the edge of `link` from `from` to `to` at position `index`,
/// carrying no flow yet.
pub open spec fn link_edge<F: Default>(e: Edge<F>, link: Link<F>, from: usize, to: usize, index: int) -> bool {
    &&& e.from == from
    &&& e.to == to
    &&& e.index == index
    &&& capacity_is(link, e.capacity)
    &&& cost_a_is(link, e.cost_a)
    &&& cost_b_is(link, e.cost_b)
    &&& call_ensures(F::default, (), e.flow)
}

/// The graph built from `network`: nodes indexed as by successive map
/// inserts, two opposite edges per link in link order, one commodity per
/// demand, and no search made.
pub open spec fn built_from<F: Default>(g: Graph<F>, network: Network<F>) -> bool {
    let ids = node_ids(network.network_structure.nodes.nodes@);
    let links = network.network_structure.links.links@;
    let demands = network.demands.demands@;
    &&& names_distinct(g.nodes@)
    &&& forall|name: Seq<char>| #[trigger] lookup(g.nodes@, name) == last_position(ids, name)
    &&& g.nodes@.len() == ids.to_set().len()
    &&& g.edges@.len() == 2 * links.len()
    &&& forall|i: int|
        0 <= i < links.len() ==> {
            let f = name_index(ids, links[i].source@);
            let t = name_index(ids, links[i].target@);
            &&& link_edge(#[trigger] g.edges@[2 * i], links[i], f, t, 2 * i)
            &&& link_edge(g.edges@[2 * i + 1], links[i], t, f, 2 * i + 1)
        }
    &&& g.commodities@.len() == demands.len()
    &&& forall|k: int| 0 <= k < demands.len() ==> fresh_commodity(#[trigger] g.commodities@[k], ids, demands[k])
    &&& g.call_dejkstra == 0
}

impl<F: Copy + Default> Graph<F> {
    /// Whether `from_network` can build a graph from `network` without
    /// looking up an unknown node or an empty module list.
    pub fn network_is_buildable(network: &Network<F>) -> (r: bool)
        ensures
            r == buildable(*network),
    {
        let ghost ids = node_ids(network.network_structure.nodes.nodes@);
        let links = &network.network_structure.links.links;
        let demands = &network.demands.demands;
        let table = index_nodes(&network.network_structure.nodes.nodes);
        if links.len() > (usize::MAX - 1) / 2 {
            return false;
        }
        let mut i: usize = 0;
        while i < links.len()
            invariant
                i <= links.len(),
                ids == node_ids(network.network_structure.nodes.nodes@),
                *links == network.network_structure.links.links,
                names_distinct(table@),
                forall|name: Seq<char>| #[trigger] lookup(table@, name) == last_position(ids, name),
                forall|k: int|
                    0 <= k < i ==> last_position(ids, #[trigger] links@[k].source@) is Some
                        && last_position(ids, links@[k].target@) is Some
                        && (links@[k].modules is Some ==> links@[k].modules->0.add_module.len() > 0),
            decreases links.len() - i,
        {
            let link = &links[i];
            let from = node_index(&table, &link.source);
            let to = node_index(&table, &link.target);
            let modules_ok = match &link.modules {
                Some(m) => m.add_module.len() > 0,
                None => true,
            };
            if from.is_none() || to.is_none() || !modules_ok {
                proof {
                    assert(lookup(table@, link.source@) == last_position(ids, link.source@));
                    assert(lookup(table@, link.target@) == last_position(ids, link.target@));
                    assert(!(last_position(ids, links@[i as int].source@) is Some
                        && last_position(ids, links@[i as int].target@) is Some
                        && (links@[i as int].modules is Some ==> links@[i as int].modules->0.add_module.len() > 0)));
                }
                return false;
            }
            i += 1;
        }
        let mut k: usize = 0;
        while k < demands.len()
            invariant
                k <= demands.len(),
                ids == node_ids(network.network_structure.nodes.nodes@),
                *demands == network.demands.demands,
                2 * network.network_structure.links.links@.len() + 1 <= usize::MAX,
                forall|j: int|
                    0 <= j < network.network_structure.links.links@.len() ==> last_position(ids, #[trigger] network.network_structure.links.links@[j].source@) is Some
                        && last_position(ids, network.network_structure.links.links@[j].target@) is Some
                        && (network.network_structure.links.links@[j].modules is Some ==> network.network_structure.links.links@[j].modules->0.add_module.len() > 0),
                names_distinct(table@),
                forall|name: Seq<char>| #[trigger] lookup(table@, name) == last_position(ids, name),
                forall|j: int|
                    0 <= j < k ==> last_position(ids, #[trigger] demands@[j].source@) is Some
                        && last_position(ids, demands@[j].target@) is Some,
            decreases demands.len() - k,
        {
            let d = &demands[k];
            let s = node_index(&table, &d.source);
            let t = node_index(&table, &d.target);
            if s.is_none() || t.is_none() {
                proof {
                    assert(lookup(table@, d.source@) == last_position(ids, d.source@));
                    assert(lookup(table@, d.target@) == last_position(ids, d.target@));
                    assert(!(last_position(ids, demands@[k as int].source@) is Some
                        && last_position(ids, demands@[k as int].target@) is Some));
                }
                return false;
            }
            proof {
                assert(lookup(table@, d.source@) == last_position(ids, d.source@));
                assert(lookup(table@, d.target@) == last_position(ids, d.target@));
            }
            k += 1;
        }
        true
    }

    /// Builds the graph of a network description with costs: each link
    /// becomes two opposite edges sharing its capacity and costs, each demand
    /// a commodity.
    pub fn from_network(network: &Network<F>) -> (g: Graph<F>)
        requires
            buildable(*network),
        ensures
            built_from(g, *network),
    {
        let ghost ids = node_ids(network.network_structure.nodes.nodes@);
        let links = &network.network_structure.links.links;
        let demands = &network.demands.demands;
        let nodes = index_nodes(&network.network_structure.nodes.nodes);
        let mut edges: Vec<Edge<F>> = Vec::new();
        let mut idx: usize = 0;
        while idx < links.len()
            invariant
                ids == node_ids(network.network_structure.nodes.nodes@),
                *links == network.network_structure.links.links,
                buildable(*network),
                idx <= links.len(),
                names_distinct(nodes@),
                forall|name: Seq<char>| #[trigger] lookup(nodes@, name) == last_position(ids, name),
                edges@.len() == 2 * idx,
                forall|i: int|
                    0 <= i < idx ==> {
                        let f = name_index(ids, links@[i].source@);
                        let t = name_index(ids, links@[i].target@);
                        &&& link_edge(#[trigger] edges@[2 * i], links@[i], f, t, 2 * i)
                        &&& link_edge(edges@[2 * i + 1], links@[i], t, f, 2 * i + 1)
                    },
            decreases links.len() - idx,
        {
            let link = &links[idx];
            proof {
                assert(lookup(nodes@, link.source@) == last_position(ids, link.source@));
                assert(lookup(nodes@, link.target@) == last_position(ids, link.target@));
                assert(last_position(ids, links@[idx as int].source@) is Some);
            }
            let from = match node_index(&nodes, &link.source) {
                Some(v) => v,
                None => unreached(),
            };
            let to = match node_index(&nodes, &link.target) {
                Some(v) => v,
                None => unreached(),
            };
            let capacity = match &link.capacity {
                Some(value) => value.capacity,
                None => {
                    match &link.modules {
                        Some(module) => module.add_module[0].capacity,
                        None => F::default(),
                    }
                },
            };
            let cost_b = match &link.routing_cost {
                Some(value) => *value,
                None => {
                    match &link.capacity {
                        Some(module) => module.cost,
                        None => F::default(),
                    }
                },
            };
            let cost_a = match &link.modules {
                Some(module) => module.add_module[0].cost,
                None => F::default(),
            };
            let ghost old_edges = edges@;
            edges.push(Edge::new(from, to, capacity, idx * 2, cost_a, cost_b));
            edges.push(Edge::new(to, from, capacity, idx * 2 + 1, cost_a, cost_b));
            proof {
                assert forall|i: int| 0 <= i < idx + 1 implies {
                    let f = name_index(ids, links@[i].source@);
                    let t = name_index(ids, links@[i].target@);
                    &&& link_edge(#[trigger] edges@[2 * i], links@[i], f, t, 2 * i)
                    &&& link_edge(edges@[2 * i + 1], links@[i], t, f, 2 * i + 1)
                } by {
                    if i < idx {
                        assert(edges@[2 * i] == old_edges[2 * i]);
                        assert(edges@[2 * i + 1] == old_edges[2 * i + 1]);
                    }
                }
            }
            idx += 1;
        }
        let mut commodities: Vec<Commodity<F>> = Vec::new();
        let mut k: usize = 0;
        while k < demands.len()
            invariant
                ids == node_ids(network.network_structure.nodes.nodes@),
                *demands == network.demands.demands,
                buildable(*network),
                names_distinct(nodes@),
                forall|name: Seq<char>| #[trigger] lookup(nodes@, name) == last_position(ids, name),
                k <= demands.len(),
                commodities@.len() == k,
                forall|j: int| 0 <= j < k ==> fresh_commodity(#[trigger] commodities@[j], ids, demands@[j]),
            decreases demands.len() - k,
        {
            let demand = &demands[k];
            proof {
                assert(lookup(nodes@, demand.source@) == last_position(ids, demand.source@));
                assert(lookup(nodes@, demand.target@) == last_position(ids, demand.target@));
                assert(last_position(ids, demands@[k as int].source@) is Some);
            }
            let source = match node_index(&nodes, &demand.source) {
                Some(v) => v,
                None => unreached(),
            };
            let target = match node_index(&nodes, &demand.target) {
                Some(v) => v,
                None => unreached(),
            };
            commodities.push(Commodity { source, target, demand: demand.value, paths: Vec::new() });
            k += 1;
        }
        Graph { nodes, edges, commodities, call_dejkstra: 0usize }
    }
}

/// The two edges built from link `i` run between the nodes it names, each
/// name standing for the last node listed under it: edge `2 * i` from the
/// source to the target, edge `2 * i + 1` back; each records its own
/// position and carries no flow yet.
pub proof fn law_link_edge_ends<F: Default>(g: Graph<F>, network: Network<F>, i: int)
    requires
        buildable(network),
        built_from(g, network),
        0 <= i < network.network_structure.links.links@.len(),
    ensures
        ({
            let nodes = network.network_structure.nodes.nodes@;
            let link = network.network_structure.links.links@[i];
            let f = g.edges@[2 * i].from as int;
            let t = g.edges@[2 * i].to as int;
            &&& 0 <= f < nodes.len() && nodes[f].id@ == link.source@
            &&& forall|k: int| f < k < nodes.len() ==> nodes[k].id@ != link.source@
            &&& 0 <= t < nodes.len() && nodes[t].id@ == link.target@
            &&& forall|k: int| t < k < nodes.len() ==> nodes[k].id@ != link.target@
            &&& g.edges@[2 * i + 1].from == t && g.edges@[2 * i + 1].to == f
            &&& g.edges@[2 * i].index == 2 * i && g.edges@[2 * i + 1].index == 2 * i + 1
            &&& call_ensures(F::default, (), g.edges@[2 * i].flow)
            &&& call_ensures(F::default, (), g.edges@[2 * i + 1].flow)
        }),
{
    let nodes = network.network_structure.nodes.nodes@;
    let ids = node_ids(nodes);
    let link = network.network_structure.links.links@[i];
    assert(link_edge(g.edges@[2 * i], link, name_index(ids, link.source@), name_index(ids, link.target@), 2 * i));
    assert(link_edge(g.edges@[2 * i + 1], link, name_index(ids, link.target@), name_index(ids, link.source@), 2 * i + 1));
    assert(last_position(ids, network.network_structure.links.links@[i].source@) is Some);
    assert(nodes.len() == network.network_structure.nodes.nodes.len());
    law_last_position(ids, link.source@);
    law_last_position(ids, link.target@);
    let f = g.edges@[2 * i].from as int;
    let t = g.edges@[2 * i].to as int;
    assert(f == last_position(ids, link.source@)->0);
    assert(t == last_position(ids, link.target@)->0);
    assert(ids[f] == nodes[f].id@);
    assert(ids[t] == nodes[t].id@);
    assert forall|k: int| f < k < nodes.len() implies nodes[k].id@ != link.source@ by {
        assert(ids[k] == nodes[k].id@);
    }
    assert forall|k: int| t < k < nodes.len() implies nodes[k].id@ != link.target@ by {
        assert(ids[k] == nodes[k].id@);
    }
}

/// The capacity of both edges of link `i`: that of its preinstalled module
/// if it has one; otherwise that of the first of its additional modules,
/// whatever modules follow; otherwise the default value.
pub proof fn law_link_capacity<F: Default>(g: Graph<F>, network: Network<F>, i: int)
    requires
        built_from(g, network),
        0 <= i < network.network_structure.links.links@.len(),
    ensures
        ({
            let link = network.network_structure.links.links@[i];
            let c0 = g.edges@[2 * i].capacity;
            let c1 = g.edges@[2 * i + 1].capacity;
            &&& link.capacity matches Some(m) ==> c0 == m.capacity && c1 == m.capacity
            &&& (link.capacity is None && link.modules is Some) ==> c0 == link.modules->0.add_module[0].capacity
                && c1 == link.modules->0.add_module[0].capacity
            &&& (link.capacity is None && link.modules is None) ==> call_ensures(F::default, (), c0)
                && call_ensures(F::default, (), c1)
        }),
{
    let ids = node_ids(network.network_structure.nodes.nodes@);
    let link = network.network_structure.links.links@[i];
    assert(link_edge(g.edges@[2 * i], link, name_index(ids, link.source@), name_index(ids, link.target@), 2 * i));
    assert(link_edge(g.edges@[2 * i + 1], link, name_index(ids, link.target@), name_index(ids, link.source@), 2 * i + 1));
}

/// The cost coefficients of both edges of link `i`. The linear one is the
/// routing cost if the link has one; otherwise the cost of its preinstalled
/// module if it has one, whether or not it also has additional modules;
/// otherwise the default value. The quadratic one is the cost of the first
/// additional module if there are additional modules, otherwise the default.
pub proof fn law_link_costs<F: Default>(g: Graph<F>, network: Network<F>, i: int)
    requires
        built_from(g, network),
        0 <= i < network.network_structure.links.links@.len(),
    ensures
        ({
            let link = network.network_structure.links.links@[i];
            let e0 = g.edges@[2 * i];
            let e1 = g.edges@[2 * i + 1];
            &&& link.routing_cost matches Some(r) ==> e0.cost_b == r && e1.cost_b == r
            &&& (link.routing_cost is None && link.capacity is Some) ==> e0.cost_b == link.capacity->0.cost
                && e1.cost_b == link.capacity->0.cost
            &&& (link.routing_cost is None && link.capacity is None) ==> call_ensures(F::default, (), e0.cost_b)
                && call_ensures(F::default, (), e1.cost_b)
            &&& link.modules matches Some(ms) ==> e0.cost_a == ms.add_module[0].cost && e1.cost_a
                == ms.add_module[0].cost
            &&& link.modules is None ==> call_ensures(F::default, (), e0.cost_a) && call_ensures(
                F::default,
                (),
                e1.cost_a,
            )
        }),
{
    let ids = node_ids(network.network_structure.nodes.nodes@);
    let link = network.network_structure.links.links@[i];
    assert(link_edge(g.edges@[2 * i], link, name_index(ids, link.source@), name_index(ids, link.target@), 2 * i));
    assert(link_edge(g.edges@[2 * i + 1], link, name_index(ids, link.target@), name_index(ids, link.source@), 2 * i + 1));
}

/// Commodity `k` is demand `k`: between the nodes it names, each name
/// standing for the last node listed under it, with its value and no routes;
/// the graph has two edges per link, one commodity per demand, and no search
/// made.
pub proof fn law_demand_commodity<F: Default>(g: Graph<F>, network: Network<F>, k: int)
    requires
        buildable(network),
        built_from(g, network),
        0 <= k < network.demands.demands@.len(),
    ensures
        g.edges@.len() == 2 * network.network_structure.links.links@.len(),
        g.commodities@.len() == network.demands.demands@.len(),
        g.call_dejkstra == 0,
        ({
            let nodes = network.network_structure.nodes.nodes@;
            let d = network.demands.demands@[k];
            let c = g.commodities@[k];
            &&& c.source < nodes.len() && nodes[c.source as int].id@ == d.source@
            &&& forall|j: int| c.source < j < nodes.len() ==> nodes[j].id@ != d.source@
            &&& c.target < nodes.len() && nodes[c.target as int].id@ == d.target@
            &&& forall|j: int| c.target < j < nodes.len() ==> nodes[j].id@ != d.target@
            &&& c.demand == d.value
            &&& c.paths@.len() == 0
        }),
{
    let ids = node_ids(network.network_structure.nodes.nodes@);
    let d = network.demands.demands@[k];
    let nodes = network.network_structure.nodes.nodes@;
    assert(fresh_commodity(g.commodities@[k], ids, d));
    assert(last_position(ids, network.demands.demands@[k].source@) is Some);
    assert(nodes.len() == network.network_structure.nodes.nodes.len());
    law_last_position(ids, d.source@);
    law_last_position(ids, d.target@);
    let c = g.commodities@[k];
    assert(c.source == last_position(ids, d.source@)->0);
    assert(c.target == last_position(ids, d.target@)->0);
    assert(ids[c.source as int] == nodes[c.source as int].id@);
    assert(ids[c.target as int] == nodes[c.target as int].id@);
    assert forall|j: int| c.source < j < nodes.len() implies nodes[j].id@ != d.source@ by {
        assert(ids[j] == nodes[j].id@);
    }
    assert forall|j: int| c.target < j < nodes.len() implies nodes[j].id@ != d.target@ by {
        assert(ids[j] == nodes[j].id@);
    }
}

/// A description whose links and demands only name listed nodes, whose
/// additional-module lists are never empty, and whose edge positions fit a
/// `usize`, can be built.
pub proof fn law_well_named_network_is_buildable<F>(network: Network<F>)
    requires
        ({
            let nodes = network.network_structure.nodes.nodes@;
            let links = network.network_structure.links.links@;
            let demands = network.demands.demands@;
            &&& 2 * links.len() + 1 <= usize::MAX
            &&& forall|i: int|
                0 <= i < links.len() ==> (exists|j: int| 0 <= j < nodes.len() && nodes[j].id@ == (#[trigger] links[i]).source@)
                    && (exists|j: int| 0 <= j < nodes.len() && nodes[j].id@ == links[i].target@)
                    && (links[i].modules is Some ==> links[i].modules->0.add_module.len() > 0)
            &&& forall|k: int|
                0 <= k < demands.len() ==> (exists|j: int| 0 <= j < nodes.len() && nodes[j].id@ == (#[trigger] demands[k]).source@)
                    && (exists|j: int| 0 <= j < nodes.len() && nodes[j].id@ == demands[k].target@)
        }),
    ensures
        buildable(network),
{
    let nodes = network.network_structure.nodes.nodes@;
    let ids = node_ids(nodes);
    let links = network.network_structure.links.links@;
    let demands = network.demands.demands@;
    assert(nodes.len() == network.network_structure.nodes.nodes.len());
    assert forall|name: Seq<char>| (exists|j: int| 0 <= j < nodes.len() && nodes[j].id@ == name) implies
        last_position(ids, name) is Some by {
        law_last_position(ids, name);
        let j = choose|j: int| 0 <= j < nodes.len() && nodes[j].id@ == name;
        assert(ids[j] == name);
    }
    assert forall|i: int| 0 <= i < links.len() implies last_position(ids, #[trigger] links[i].source@) is Some
        && last_position(ids, links[i].target@) is Some
        && (links[i].modules is Some ==> links[i].modules->0.add_module.len() > 0) by {
        assert(exists|j: int| 0 <= j < nodes.len() && nodes[j].id@ == links[i].source@);
        assert(exists|j: int| 0 <= j < nodes.len() && nodes[j].id@ == links[i].target@);
    }
    assert forall|k: int| 0 <= k < demands.len() implies last_position(ids, #[trigger] demands[k].source@) is Some
        && last_position(ids, demands[k].target@) is Some by {
        assert(exists|j: int| 0 <= j < nodes.len() && nodes[j].id@ == demands[k].source@);
        assert(exists|j: int| 0 <= j < nodes.len() && nodes[j].id@ == demands[k].target@);
    }
}

} // verus!
