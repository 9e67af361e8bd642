use vstd::prelude::*;
use vstd::set_lib::*;
use std::collections::VecDeque;

use crate::path::{back_chain, chain_in_bounds, lemma_reverse_prepend, trace_back};
pub use crate::path::{add_path_if_unique, has_duplicate_path, Commodity, Path};

verus! {

/// A directed edge from node `from` to node `to`, with its capacity, the
/// flow it carries and its own position in the graph's edge list.
pub struct Edge<F> {
    pub from: usize,
    pub to: usize,
    pub capacity: F,
    pub flow: F,
    pub index: usize,
}

impl<F> Edge<F> {
    /// An edge that carries no flow yet.
    pub fn new(from: usize, to: usize, capacity: F, index: usize) -> (e: Self)
        where F: Default,
        ensures
            e.from == from,
            e.to == to,
            e.capacity == capacity,
            e.index == index,
            call_ensures(F::default, (), e.flow),
    {
        Edge { from, to, capacity, flow: F::default(), index }
    }
}

/// A network with its demands: `nodes` gives each node name its index (the
/// position of the name's last occurrence in the description it was built
/// from); `adj_list[u]` lists the pairs `(v, e)` of the edges
/// `e` that leave `u` towards `v`; `count_dejkstra` counts the route searches
/// made so far.
pub struct Graph<F> {
    pub nodes: Vec<(String, usize)>,
    pub edges: Vec<Edge<F>>,
    pub commodities: Vec<Commodity<F>>,
    pub count_dejkstra: usize,
    pub adj_list: Vec<Vec<(usize, usize)>>,
}

impl<F> Graph<F> {
    /// The number of nodes.
    pub open spec fn node_count(&self) -> nat {
        self.nodes@.len()
    }

    /// The adjacency lists agree with the edges: every entry `(v, e)` of
    /// `adj_list[u]` names an edge `e` from `u` to `v`, and there is one list
    /// per node.
    pub open spec fn wf(&self) -> bool {
        &&& self.adj_list@.len() == self.nodes@.len()
        &&& forall|u: int, j: int|
            0 <= u < self.adj_list@.len() && 0 <= j < self.adj_list@[u]@.len() ==> {
                let (v, e) = #[trigger] self.adj_list@[u]@[j];
                &&& v < self.nodes@.len()
                &&& e < self.edges@.len()
                &&& self.edges@[e as int].from == u
                &&& self.edges@[e as int].to == v
            }
    }

    /// The adjacency list of `u` offers edge `e` towards `v`.
    pub open spec fn step(&self, u: int, e: usize, v: int) -> bool {
        &&& 0 <= u < self.adj_list@.len()
        &&& 0 <= v < self.adj_list@.len()
        &&& self.adj_list@[u]@.contains((v as usize, e))
    }

    /// `p` lists the edges of a walk from `src` to `dst` that follows the
    /// adjacency lists.
    pub open spec fn is_walk(&self, src: int, p: Seq<usize>, dst: int) -> bool
        decreases p.len(),
    {
        if p.len() == 0 {
            src == dst
        } else {
            let e = p.last();
            &&& e < self.edges@.len()
            &&& self.step(self.edges@[e as int].from as int, e, dst)
            &&& self.is_walk(src, p.drop_last(), self.edges@[e as int].from as int)
        }
    }

    /// Some walk leads from `src` to `dst`.
    pub open spec fn reachable(&self, src: int, dst: int) -> bool {
        exists|p: Seq<usize>| #[trigger] self.is_walk(src, p, dst)
    }

    /// `p` is a walk from `src` to `dst` with the fewest edges.
    pub open spec fn is_shortest_walk(&self, src: int, p: Seq<usize>, dst: int) -> bool {
        &&& self.is_walk(src, p, dst)
        &&& forall|q: Seq<usize>| #[trigger] self.is_walk(src, q, dst) ==> p.len() <= q.len()
    }

    /// Everything but the search counter is as in `other`.
    pub open spec fn same_network(&self, other: &Self) -> bool {
        &&& self.nodes@ == other.nodes@
        &&& self.edges@ == other.edges@
        &&& self.commodities@ == other.commodities@
        &&& self.adj_list@ == other.adj_list@
    }
}

spec fn dist_at(dist: Seq<Option<usize>>, v: usize) -> int {
    dist[v as int]->0 as int
}

spec fn link_at(prev: Seq<Option<(usize, usize)>>, v: int) -> (usize, usize) {
    prev[v]->0
}

/// Breadth-first search state, basic part: `dist` and `prev` have one entry
/// per node, `seen` is the set of nodes with a distance, and every distance
/// is below the number of nodes seen.
spec fn bfs_base<F>(
    g: &Graph<F>,
    source: int,
    dist: Seq<Option<usize>>,
    prev: Seq<Option<(usize, usize)>>,
    seen: Set<int>,
) -> bool {
    let n = g.nodes@.len();
    &&& g.wf()
    &&& dist.len() == n
    &&& prev.len() == n
    &&& 0 <= source < n
    &&& dist[source] == Some(0usize)
    &&& prev[source] is None
    &&& seen.finite()
    &&& seen.len() <= n
    &&& forall|v: int| #[trigger] seen.contains(v) <==> (0 <= v < n && dist[v] is Some)
    &&& forall|v: int| #[trigger] seen.contains(v) ==> dist[v]->0 < seen.len()
}

/// Every seen node but the source was reached over an offered edge from a
/// seen node one closer to the source.
#[verifier::opaque]
spec fn bfs_links<F>(
    g: &Graph<F>,
    source: int,
    dist: Seq<Option<usize>>,
    prev: Seq<Option<(usize, usize)>>,
    seen: Set<int>,
) -> bool {
    forall|v: int| #[trigger] seen.contains(v) && v != source ==> {
        &&& prev[v] is Some
        &&& seen.contains(link_at(prev, v).0 as int)
        &&& dist[link_at(prev, v).0 as int]->0 + 1 == dist[v]->0
        &&& g.step(link_at(prev, v).0 as int, link_at(prev, v).1, v)
    }
}

/// The queue holds seen nodes in order of distance, all at `level` or one
/// beyond; seen nodes are at most one beyond `level`; expanded nodes are at
/// most at `level`; every seen node is expanded, queued, or `current`.
spec fn bfs_queue(
    n: nat,
    dist: Seq<Option<usize>>,
    queue: Seq<usize>,
    seen: Set<int>,
    done: Set<int>,
    level: int,
    current: int,
) -> bool {
    &&& level >= 0
    &&& forall|i: int| 0 <= i < queue.len() ==> {
        &&& 0 <= #[trigger] queue[i] < n
        &&& seen.contains(queue[i] as int)
        &&& level <= dist_at(dist, queue[i]) <= level + 1
    }
    &&& forall|i: int, j: int|
        0 <= i <= j < queue.len() ==> dist_at(dist, #[trigger] queue[i]) <= dist_at(dist, #[trigger] queue[j])
    &&& forall|v: int| #[trigger] seen.contains(v) ==> dist[v]->0 <= level + 1
    &&& forall|v: int| #[trigger] done.contains(v) ==> seen.contains(v) && dist[v]->0 <= level
    &&& forall|v: int|
        #[trigger] seen.contains(v) ==> done.contains(v) || queue.contains(v as usize) || v == current
}

/// Every edge offered from an expanded node leads to a seen node.
#[verifier::opaque]
spec fn bfs_closed<F>(g: &Graph<F>, seen: Set<int>, done: Set<int>) -> bool {
    forall|u: int, j: int|
        done.contains(u) && 0 <= j < g.adj_list@[u]@.len() ==> seen.contains(
            #[trigger] g.adj_list@[u]@[j].0 as int,
        )
}

/// No walk to a seen node is shorter than its distance.
#[verifier::opaque]
spec fn bfs_exact<F>(g: &Graph<F>, source: int, dist: Seq<Option<usize>>, seen: Set<int>) -> bool {
    forall|v: int, p: Seq<usize>|
        #[trigger] seen.contains(v) && #[trigger] g.is_walk(source, p, v) ==> dist[v]->0 <= p.len()
}

/// Every walk to a node not yet seen is longer than `level`.
#[verifier::opaque]
spec fn bfs_frontier<F>(g: &Graph<F>, source: int, seen: Set<int>, level: int) -> bool {
    forall|w: int, p: Seq<usize>|
        !#[trigger] seen.contains(w) && #[trigger] g.is_walk(source, p, w) ==> p.len() >= level + 1
}

spec fn bfs_inv<F>(
    g: &Graph<F>,
    source: int,
    dist: Seq<Option<usize>>,
    prev: Seq<Option<(usize, usize)>>,
    queue: Seq<usize>,
    seen: Set<int>,
    done: Set<int>,
    level: int,
    current: int,
) -> bool {
    &&& bfs_base(g, source, dist, prev, seen)
    &&& bfs_links(g, source, dist, prev, seen)
    &&& bfs_queue(g.nodes@.len(), dist, queue, seen, done, level, current)
    &&& bfs_closed(g, seen, done)
    &&& bfs_exact(g, source, dist, seen)
    &&& bfs_frontier(g, source, seen, level)
}

proof fn lemma_walk_nonempty_end<F>(g: &Graph<F>, src: int, p: Seq<usize>, dst: int)
    requires
        g.wf(),
        g.is_walk(src, p, dst),
        p.len() > 0,
    ensures
        0 <= dst < g.nodes@.len(),
        (dst as usize) as int == dst,
        ({
            let e = p.last();
            let x = g.edges@[e as int].from as int;
            &&& 0 <= x < g.nodes@.len()
            &&& g.is_walk(src, p.drop_last(), x)
            &&& exists|j: int| 0 <= j < g.adj_list@[x]@.len() && #[trigger] g.adj_list@[x]@[j] == (dst as usize, e)
        }),
{
    let e = p.last();
    let x = g.edges@[e as int].from as int;
    let j = choose|j: int| 0 <= j < g.adj_list@[x]@.len() && g.adj_list@[x]@[j] == (dst as usize, e);
    assert(g.adj_list@[x]@[j] == (dst as usize, e));
    assert(g.nodes@.len() == g.nodes.len());
}

/// When the queue is empty every node reachable from the source has been
/// reached.
proof fn lemma_closed_reaches_all<F>(
    g: &Graph<F>,
    source: int,
    seen: Set<int>,
    done: Set<int>,
    p: Seq<usize>,
    w: int,
)
    requires
        g.wf(),
        seen.contains(source),
        forall|v: int| #[trigger] seen.contains(v) ==> done.contains(v),
        forall|u: int, j: int|
            done.contains(u) && 0 <= j < g.adj_list@[u]@.len() ==> seen.contains(#[trigger] g.adj_list@[u]@[j].0 as int),
        g.is_walk(source, p, w),
    ensures
        seen.contains(w),
    decreases p.len(),
{
    if p.len() > 0 {
        lemma_walk_nonempty_end(g, source, p, w);
        let x = g.edges@[p.last() as int].from as int;
        lemma_closed_reaches_all(g, source, seen, done, p.drop_last(), x);
        let j = choose|j: int| 0 <= j < g.adj_list@[x]@.len() && #[trigger] g.adj_list@[x]@[j] == (w as usize, p.last());
        assert(seen.contains(g.adj_list@[x]@[j].0 as int));
        assert((w as usize) as int == w);
    }
}

/// Following the predecessor links from a reached node yields a walk from
/// the source of exactly its distance.
proof fn lemma_chain_is_walk<F>(
    g: &Graph<F>,
    source: int,
    dist: Seq<Option<usize>>,
    prev: Seq<Option<(usize, usize)>>,
    seen: Set<int>,
    v: int,
    fuel: nat,
)
    requires
        bfs_base(g, source, dist, prev, seen),
        bfs_links(g, source, dist, prev, seen),
        seen.contains(v),
        fuel >= dist[v]->0,
    ensures
        chain_in_bounds(prev, v, fuel),
        back_chain(prev, v, fuel) matches Some(s) && s.len() == dist[v]->0 && g.is_walk(
            source,
            s.reverse(),
            v,
        ),
    decreases dist[v]->0,
{
    reveal(bfs_links);
    if v == source {
        assert(Seq::<usize>::empty().reverse() =~= Seq::<usize>::empty());
    } else {
        let (u, e) = prev[v]->0;
        lemma_chain_is_walk(g, source, dist, prev, seen, u as int, (fuel - 1) as nat);
        let s = back_chain(prev, u as int, (fuel - 1) as nat)->0;
        lemma_reverse_prepend(e, s);
        let r = s.reverse().push(e);
        assert(r.drop_last() =~= s.reverse());
        let j = choose|j: int| 0 <= j < g.adj_list@[u as int]@.len() && g.adj_list@[u as int]@[j] == (v as usize, e);
        assert(g.adj_list@[u as int]@[j] == (v as usize, e));
    }
}

/// Once the front of the queue is one beyond `level`, every node at `level`
/// has been expanded and the frontier moves on by one.
proof fn lemma_level_up<F>(
    g: &Graph<F>,
    source: int,
    dist: Seq<Option<usize>>,
    prev: Seq<Option<(usize, usize)>>,
    queue: Seq<usize>,
    seen: Set<int>,
    done: Set<int>,
    level: int,
)
    requires
        bfs_inv(g, source, dist, prev, queue, seen, done, level, -1),
        queue.len() > 0,
        dist_at(dist, queue[0]) == level + 1,
    ensures
        bfs_inv(g, source, dist, prev, queue, seen, done, level + 1, -1),
{
    reveal(bfs_closed);
    reveal(bfs_exact);
    reveal(bfs_frontier);
    assert forall|i: int| 0 <= i < queue.len() implies dist_at(dist, #[trigger] queue[i]) == level + 1 by {
        assert(dist_at(dist, queue[0]) <= dist_at(dist, queue[i]));
    }
    assert forall|w: int, p: Seq<usize>|
        !#[trigger] seen.contains(w) && #[trigger] g.is_walk(source, p, w) implies p.len() >= level + 2 by {
        if p.len() == 0 {
            assert(seen.contains(source));
        } else {
            lemma_walk_nonempty_end(g, source, p, w);
            let e = p.last();
            let x = g.edges@[e as int].from as int;
            let pp = p.drop_last();
            assert(g.is_walk(source, pp, x));
            if seen.contains(x) {
                if done.contains(x) {
                    let j = choose|j: int|
                        0 <= j < g.adj_list@[x]@.len() && #[trigger] g.adj_list@[x]@[j] == (w as usize, e);
                    assert(seen.contains(g.adj_list@[x]@[j].0 as int));
                    assert((w as usize) as int == w);
                } else {
                    assert(queue.contains(x as usize));
                    let i = choose|i: int| 0 <= i < queue.len() && queue[i] == x as usize;
                    assert(dist_at(dist, queue[i]) == level + 1);
                    assert(dist[x]->0 <= pp.len());
                }
            }
        }
    }
}

/// Taking the front of the queue to expand it.
proof fn lemma_pop<F>(
    g: &Graph<F>,
    source: int,
    dist: Seq<Option<usize>>,
    prev: Seq<Option<(usize, usize)>>,
    queue: Seq<usize>,
    seen: Set<int>,
    done: Set<int>,
    level: int,
)
    requires
        bfs_inv(g, source, dist, prev, queue, seen, done, level, -1),
        queue.len() > 0,
    ensures
        bfs_inv(g, source, dist, prev, queue.drop_first(), seen, done, level, queue[0] as int),
{
    let q1 = queue.drop_first();
    assert(g.nodes@.len() == g.nodes.len());
    assert forall|v: int| #[trigger] seen.contains(v) implies done.contains(v) || q1.contains(v as usize)
        || v == queue[0] as int by {
        if !done.contains(v) && v != queue[0] as int {
            assert((v as usize) as int == v);
            assert(queue.contains(v as usize));
            let i = choose|i: int| 0 <= i < queue.len() && queue[i] == v as usize;
            assert(i != 0);
            assert(q1[i - 1] == v as usize);
        }
    }
    assert forall|i: int, j: int| 0 <= i <= j < q1.len() implies dist_at(dist, #[trigger] q1[i])
        <= dist_at(dist, #[trigger] q1[j]) by {
        assert(q1[i] == queue[i + 1]);
        assert(q1[j] == queue[j + 1]);
    }
    assert forall|i: int| 0 <= i < q1.len() implies 0 <= #[trigger] q1[i] < g.nodes@.len() && seen.contains(q1[i] as int)
        && level <= dist_at(dist, q1[i]) <= level + 1 by {
        assert(q1[i] == queue[i + 1]);
    }
}

/// Reaching a new node `v` over edge `e` from the node `u` under expansion.
proof fn lemma_reach<F>(
    g: &Graph<F>,
    source: int,
    dist: Seq<Option<usize>>,
    prev: Seq<Option<(usize, usize)>>,
    queue: Seq<usize>,
    seen: Set<int>,
    done: Set<int>,
    level: int,
    u: int,
    j: int,
)
    requires
        bfs_inv(g, source, dist, prev, queue, seen, done, level, u),
        seen.contains(u),
        dist[u] is Some,
        dist[u]->0 == level,
        0 <= j < g.adj_list@[u]@.len(),
        !seen.contains(g.adj_list@[u]@[j].0 as int),
    ensures
        ({
            let (v, e) = g.adj_list@[u]@[j];
            let dist2 = dist.update(v as int, Some((level + 1) as usize));
            let prev2 = prev.update(v as int, Some((u as usize, e)));
            &&& bfs_inv(g, source, dist2, prev2, queue.push(v), seen.insert(v as int), done, level, u)
            &&& seen.insert(v as int).len() == seen.len() + 1
        }),
{
    reveal(bfs_links);
    reveal(bfs_closed);
    reveal(bfs_exact);
    reveal(bfs_frontier);
    assert(g.nodes@.len() == g.nodes.len());
    let n = g.nodes@.len();
    let (v, e) = g.adj_list@[u]@[j];
    let vi = v as int;
    let dist2 = dist.update(vi, Some((level + 1) as usize));
    let prev2 = prev.update(vi, Some((u as usize, e)));
    let seen2 = seen.insert(vi);
    let q2 = queue.push(v);
    assert(0 <= vi < n);
    assert(seen2.len() == seen.len() + 1);
    assert(seen2.subset_of(set_int_range(0, n as int)));
    lemma_int_range(0, n as int);
    lemma_len_subset(seen2, set_int_range(0, n as int));
    assert(vi != source);
    assert forall|w: int| #[trigger] seen2.contains(w) <==> (0 <= w < n && dist2[w] is Some) by {}
    assert(seen.contains(u));
    assert(dist[u]->0 < seen.len());
    assert forall|w: int| #[trigger] seen2.contains(w) implies dist2[w]->0 < seen2.len() by {
        if w != vi {
            assert(seen.contains(w));
        }
    }
    assert(bfs_base(g, source, dist2, prev2, seen2));
    assert(u != vi);
    assert((u as usize) as int == u);
    assert forall|w: int| #[trigger] seen2.contains(w) && w != source implies {
        &&& prev2[w] is Some
        &&& seen2.contains(link_at(prev2, w).0 as int)
        &&& dist2[link_at(prev2, w).0 as int]->0 + 1 == dist2[w]->0
        &&& g.step(link_at(prev2, w).0 as int, link_at(prev2, w).1, w)
    } by {
        if w == vi {
            assert(g.adj_list@[u]@.contains((v, e)));
            assert(link_at(prev2, w) == (u as usize, e));
            assert(dist2[u] == dist[u]);
            assert((vi as usize) == v);
        } else {
            assert(seen.contains(w));
            assert(link_at(prev2, w) == link_at(prev, w));
            assert(seen.contains(link_at(prev, w).0 as int));
            assert(link_at(prev, w).0 as int != vi);
        }
    }
    assert(bfs_links(g, source, dist2, prev2, seen2));
    assert forall|i: int| 0 <= i < q2.len() implies {
        &&& 0 <= #[trigger] q2[i] < n
        &&& seen2.contains(q2[i] as int)
        &&& level <= dist_at(dist2, q2[i]) <= level + 1
    } by {
        if i < queue.len() {
            assert(q2[i] == queue[i]);
            assert(seen.contains(queue[i] as int));
            assert(queue[i] as int != vi);
        } else {
            assert(q2[i] == v);
        }
    }
    assert forall|i: int, k: int| 0 <= i <= k < q2.len() implies dist_at(dist2, #[trigger] q2[i])
        <= dist_at(dist2, #[trigger] q2[k]) by {
        if k < queue.len() {
            assert(q2[i] == queue[i]);
            assert(q2[k] == queue[k]);
            assert(seen.contains(queue[i] as int));
            assert(seen.contains(queue[k] as int));
            assert(queue[i] as int != vi);
            assert(queue[k] as int != vi);
        } else if i < queue.len() {
            assert(q2[i] == queue[i]);
            assert(seen.contains(queue[i] as int));
            assert(queue[i] as int != vi);
            assert(q2[k] == v);
        }
    }
    assert forall|w: int| #[trigger] seen2.contains(w) implies done.contains(w) || q2.contains(w as usize)
        || w == u by {
        if w == vi {
            assert(q2[queue.len() as int] == v);
        } else if queue.contains(w as usize) {
            let i = choose|i: int| 0 <= i < queue.len() && queue[i] == w as usize;
            assert(q2[i] == w as usize);
        }
    }
    assert(bfs_queue(n, dist2, q2, seen2, done, level, u));
    assert(bfs_closed(g, seen2, done));
    assert forall|w: int, p: Seq<usize>| #[trigger] seen2.contains(w) && #[trigger] g.is_walk(source, p, w)
        implies dist2[w]->0 <= p.len() by {
        if w != vi {
            assert(seen.contains(w));
        }
    }
    assert(bfs_exact(g, source, dist2, seen2));
    assert(bfs_frontier(g, source, seen2, level));
}

/// The search state after the entries from position `j` on of the adjacency
/// list of `u` have been looked at, `u` being at distance `du`: an entry
/// towards a node with no distance, or a larger one than `du + 1`, gives that
/// node distance `du + 1`, records `u` and the edge as its predecessor and
/// queues it.
pub open spec fn scan_entries<F>(
    g: &Graph<F>,
    u: usize,
    du: usize,
    j: int,
    dist: Seq<Option<usize>>,
    prev: Seq<Option<(usize, usize)>>,
    queue: Seq<usize>,
) -> (Seq<Option<usize>>, Seq<Option<(usize, usize)>>, Seq<usize>)
    decreases g.adj_list@[u as int]@.len() - j,
{
    if j < 0 || j >= g.adj_list@[u as int]@.len() {
        (dist, prev, queue)
    } else {
        let (v, e) = g.adj_list@[u as int]@[j];
        let better = match dist[v as int] {
            None => true,
            Some(d) => du + 1 < d,
        };
        if better {
            scan_entries(
                g,
                u,
                du,
                j + 1,
                dist.update(v as int, Some((du + 1) as usize)),
                prev.update(v as int, Some((u, e))),
                queue.push(v),
            )
        } else {
            scan_entries(g, u, du, j + 1, dist, prev, queue)
        }
    }
}

/// The distances and predecessor links when the breadth-first search stops,
/// at most `fuel` expansions on: it takes the front of the queue, stops when
/// the queue is empty or the front is `target`, and otherwise looks at the
/// whole adjacency list of the front in order.
pub open spec fn search_run<F>(
    g: &Graph<F>,
    target: usize,
    dist: Seq<Option<usize>>,
    prev: Seq<Option<(usize, usize)>>,
    queue: Seq<usize>,
    fuel: nat,
) -> (Seq<Option<usize>>, Seq<Option<(usize, usize)>>)
    decreases fuel,
{
    if fuel == 0 || queue.len() == 0 {
        (dist, prev)
    } else if queue[0] == target {
        (dist, prev)
    } else {
        let u = queue[0];
        let du = match dist[u as int] {
            Some(d) => d,
            None => 0,
        };
        let next = scan_entries(g, u, du, 0, dist, prev, queue.drop_first());
        search_run(g, target, next.0, next.1, next.2, (fuel - 1) as nat)
    }
}

/// The distances and predecessor links of the breadth-first search from
/// `source` towards `target`: at the start only `source` has a distance, 0,
/// and only it is queued; no search expands more nodes than there are.
pub open spec fn search_from<F>(g: &Graph<F>, source: usize, target: usize) -> (
    Seq<Option<usize>>,
    Seq<Option<(usize, usize)>>,
) {
    let n = g.nodes@.len();
    search_run(
        g,
        target,
        Seq::new(n, |i: int| None::<usize>).update(source as int, Some(0usize)),
        Seq::new(n, |i: int| None::<(usize, usize)>),
        seq![source],
        n + 1,
    )
}

impl<F> Graph<F> {
    /// Searches a route from `source` to `target` with the fewest edges,
    /// breadth first over the adjacency lists, and counts the search.
    pub fn find_initial_path(&mut self, source: usize, target: usize) -> (r: Option<Path<F>>)
        where F: Default,
        requires
            old(self).wf(),
            source < old(self).node_count(),
            target < old(self).node_count(),
            old(self).count_dejkstra < usize::MAX,
        ensures
            final(self).count_dejkstra == old(self).count_dejkstra + 1,
            final(self).same_network(&*old(self)),
            (r is Some) == old(self).reachable(source as int, target as int),
            r matches Some(p) ==> old(self).is_shortest_walk(source as int, p.edges@, target as int)
                && call_ensures(F::default, (), p.flow),
            r matches Some(p) ==> (back_chain(
                search_from(&*old(self), source, target).1,
                target as int,
                old(self).node_count(),
            ) matches Some(s) && p.edges@ == s.reverse()),
    {
        let found = self.initial_path_search(source, target);
        self.count_dejkstra += 1;
        match found {
            Some(edges) => Some(Path::new(edges)),
            None => None,
        }
    }

    fn initial_path_search(&self, source: usize, target: usize) -> (r: Option<Vec<usize>>)
        requires
            self.wf(),
            source < self.node_count(),
            target < self.node_count(),
        ensures
            (r is Some) == self.reachable(source as int, target as int),
            r matches Some(p) ==> self.is_shortest_walk(source as int, p@, target as int),
            r matches Some(p) ==> (back_chain(search_from(self, source, target).1, target as int, self.node_count())
                matches Some(s) && p@ == s.reverse()),
    {
        let n = self.nodes.len();
        let mut distances: Vec<Option<usize>> = Vec::new();
        let mut previous: Vec<Option<(usize, usize)>> = Vec::new();
        let mut k: usize = 0;
        while k < n
            invariant
                k <= n,
                distances@.len() == k,
                previous@.len() == k,
                forall|i: int| 0 <= i < k ==> distances@[i] is None && previous@[i] is None,
            decreases n - k,
        {
            distances.push(None);
            previous.push(None);
            k += 1;
        }
        let mut queue: VecDeque<usize> = VecDeque::new();
        distances.set(source, Some(0));
        queue.push_back(source);
        let ghost mut seen: Set<int> = set![source as int];
        let ghost mut done: Set<int> = Set::empty();
        let ghost mut level: int = 0;
        let ghost mut fuel: nat = (n + 1) as nat;
        proof {
            assert(distances@ =~= Seq::new(n as nat, |i: int| None::<usize>).update(source as int, Some(0usize)));
            assert(previous@ =~= Seq::new(n as nat, |i: int| None::<(usize, usize)>));
            assert(queue@ =~= seq![source]);
            reveal(bfs_links);
            reveal(bfs_closed);
            reveal(bfs_exact);
            reveal(bfs_frontier);
            assert forall|v: int| #[trigger] seen.contains(v) <==> (0 <= v < n && distances@[v] is Some) by {
                if 0 <= v < n && distances@[v] is Some {
                    assert(v == source as int);
                }
            }
            assert(seen.len() == 1);
            assert forall|w: int, p: Seq<usize>|
                !#[trigger] seen.contains(w) && #[trigger] self.is_walk(source as int, p, w) implies p.len()
                >= level + 1 by {
                if p.len() == 0 {
                    assert(w == source as int);
                }
            }
            assert(queue@[0] == source);
            assert(seen.contains(queue@[0] as int));
            assert forall|v: int| #[trigger] seen.contains(v) implies done.contains(v) || queue@.contains(v as usize)
                || v == -1 by {
                assert(queue@[0] == source);
            }
            assert(bfs_inv(self, source as int, distances@, previous@, queue@, seen, done, level, -1));
        }
        loop
            invariant_except_break
                bfs_inv(self, source as int, distances@, previous@, queue@, seen, done, level, -1),
                search_from(self, source, target) == search_run(self, target, distances@, previous@, queue@, fuel),
                fuel == n + 1 - seen.len() + queue@.len(),
            invariant
                n == self.nodes@.len(),
                source < n,
                target < n,
                bfs_base(self, source as int, distances@, previous@, seen),
                bfs_links(self, source as int, distances@, previous@, seen),
                bfs_exact(self, source as int, distances@, seen),
            ensures
                (queue@.len() == 0 && bfs_closed(self, seen, done) && seen.subset_of(done))
                    || seen.contains(target as int),
                search_from(self, source, target) == (distances@, previous@),
            decreases n - seen.len(), queue@.len(),
        {
            let ghost q0 = queue@;
            match queue.pop_front() {
                None => {
                    assert forall|v: int| #[trigger] seen.contains(v) implies done.contains(v) by {
                        if seen.contains(v) && !done.contains(v) {
                            assert(q0.contains(v as usize));
                        }
                    }
                    break ;
                },
                Some(vertex) => {
                    assert(q0[0] == vertex);
                    if vertex == target {
                        assert(seen.contains(q0[0] as int));
                        assert(fuel >= 1);
                        assert(search_run(self, target, distances@, previous@, q0, fuel) == (distances@, previous@));
                        break ;
                    }
                    let du = match distances[vertex] {
                        Some(d) => d,
                        None => 0,
                    };
                    proof {
                        assert(seen.contains(q0[0] as int));
                        if du == level + 1 {
                            lemma_level_up(self, source as int, distances@, previous@, q0, seen, done, level);
                            level = level + 1;
                        }
                        lemma_pop(self, source as int, distances@, previous@, q0, seen, done, level);
                        assert(queue@ =~= q0.drop_first());
                    }
                    let ghost seen0 = seen;
                    let ghost q1 = queue@;
                    let ghost d0 = distances@;
                    let ghost p0 = previous@;
                    let adj = &self.adj_list[vertex];
                    let mut j: usize = 0;
                    while j < adj.len()
                        invariant
                            n == self.nodes@.len(),
                            source < n,
                            target < n,
                            vertex < n,
                            adj@ == self.adj_list@[vertex as int]@,
                            j <= adj@.len(),
                            distances@[vertex as int] == Some(du),
                            du == level,
                            bfs_inv(self, source as int, distances@, previous@, queue@, seen, done, level, vertex as int),
                            forall|i: int| 0 <= i < j ==> seen.contains(#[trigger] adj@[i].0 as int),
                            seen.contains(vertex as int),
                            seen0.subset_of(seen),
                            seen.len() >= seen0.len(),
                            seen.len() - seen0.len() == queue@.len() - q1.len(),
                            scan_entries(self, vertex, du, 0, d0, p0, q1) == scan_entries(
                                self,
                                vertex,
                                du,
                                j as int,
                                distances@,
                                previous@,
                                queue@,
                            ),
                        decreases adj@.len() - j,
                    {
                        let (next_vertex, edge_idx) = adj[j];
                        proof {
                            assert(self.adj_list@[vertex as int]@[j as int] == (next_vertex, edge_idx));
                        }
                        let next_cost = du + 1;
                        let better = match distances[next_vertex] {
                            None => true,
                            Some(dn) => next_cost < dn,
                        };
                        if better {
                            proof {
                                if distances@[next_vertex as int] is Some {
                                    assert(seen.contains(next_vertex as int));
                                }
                                lemma_reach(self, source as int, distances@, previous@, queue@, seen, done, level, vertex as int, j as int);
                            }
                            distances.set(next_vertex, Some(next_cost));
                            queue.push_back(next_vertex);
                            previous.set(next_vertex, Some((vertex, edge_idx)));
                            proof {
                                seen = seen.insert(next_vertex as int);
                            }
                        } else {
                            proof {
                                assert(seen.contains(next_vertex as int));
                            }
                        }
                        j += 1;
                    }
                    proof {
                        fuel = (fuel - 1) as nat;
                        reveal(bfs_closed);
                        let done2 = done.insert(vertex as int);
                        assert forall|u: int, i: int|
                            done2.contains(u) && 0 <= i < self.adj_list@[u]@.len() implies seen.contains(
                            #[trigger] self.adj_list@[u]@[i].0 as int) by {
                            if u == vertex as int {
                                assert(adj@[i] == self.adj_list@[u]@[i]);
                            }
                        }
                        done = done2;
                    }
                },
            }
        }
        match distances[target] {
            None => {
                proof {
                    reveal(bfs_closed);
                    assert forall|p: Seq<usize>| !#[trigger] self.is_walk(source as int, p, target as int) by {
                        if self.is_walk(source as int, p, target as int) {
                            lemma_closed_reaches_all(self, source as int, seen, done, p, target as int);
                        }
                    }
                }
                None
            },
            Some(_) => {
                proof {
                    assert(seen.contains(target as int));
                    lemma_chain_is_walk(self, source as int, distances@, previous@, seen, target as int, n as nat);
                }
                let r = trace_back(&previous, target);
                proof {
                    reveal(bfs_exact);
                    let s = back_chain(previous@, target as int, n as nat)->0;
                    assert(self.is_walk(source as int, s.reverse(), target as int));
                    assert(s.reverse().len() == s.len());
                }
                r
            },
        }
    }
}

} // verus!
