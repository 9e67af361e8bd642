use vstd::prelude::*;

verus! {

/// A route through the network, given by the indices of the edges it uses in
/// order, together with the amount of flow it carries. `==` compares both.
#[derive(Debug, Clone, PartialEq)]
pub struct Path<F> {
    pub edges: Vec<usize>,
    pub flow: F,
}

/// A demand between two nodes and the routes along which it is sent.
pub struct Commodity<F> {
    pub source: usize,
    pub target: usize,
    pub demand: F,
    pub paths: Vec<Path<F>>,
}

impl<F> Path<F> {
    /// A route over `edges` that carries no flow yet.
    pub fn new(edges: Vec<usize>) -> (p: Self)
        where F: Default,
        ensures
            p.edges@ == edges@,
            call_ensures(F::default, (), p.flow),
    {
        Path { edges, flow: F::default() }
    }

    /// A route over `edges` that carries `flow`.
    pub fn with_flow(edges: Vec<usize>, flow: F) -> (p: Self)
        ensures
            p.edges@ == edges@,
            p.flow == flow,
    {
        Path { edges, flow }
    }

    /// Whether the two routes run over the same edges, whatever their flows.
    fn eq(&self, other: &Self) -> (r: bool)
        ensures
            r == (self.edges@ == other.edges@),
    {
        same_edges(&self.edges, &other.edges)
    }
}

/// Some route in `paths` runs over exactly the edges `edges`.
pub open spec fn has_route<F>(paths: Seq<Path<F>>, edges: Seq<usize>) -> bool {
    exists|i: int| 0 <= i < paths.len() && #[trigger] paths[i].edges@ == edges
}

/// No two routes in `paths` run over the same edge list.
pub open spec fn distinct_routes<F>(paths: Seq<Path<F>>) -> bool {
    forall|i: int, j: int|
        0 <= i < paths.len() && 0 <= j < paths.len() && i != j ==> #[trigger] paths[i].edges@
            != #[trigger] paths[j].edges@
}

/// The routes after offering `new_path`: it is appended unless a route over
/// the same edges is already there.
pub open spec fn added_if_unique<F>(paths: Seq<Path<F>>, new_path: Path<F>) -> Seq<Path<F>> {
    if has_route(paths, new_path.edges@) {
        paths
    } else {
        paths.push(new_path)
    }
}

/// The position of the first route in `paths` over exactly `edges`.
pub open spec fn first_route_index<F>(paths: Seq<Path<F>>, edges: Seq<usize>) -> Option<int>
    decreases paths.len(),
{
    if paths.len() == 0 {
        None
    } else if paths[0].edges@ == edges {
        Some(0)
    } else {
        match first_route_index(paths.drop_first(), edges) {
            Some(i) => Some(i + 1),
            None => None,
        }
    }
}

fn same_edges(a: &Vec<usize>, b: &Vec<usize>) -> (r: bool)
    ensures
        r == (a@ == b@),
{
    let r = a == b;
    proof {
        if r {
            assert(a@ =~= b@);
        }
    }
    r
}

/// Whether some route in `paths` runs over the same edges as `new_path`;
/// the flows are not compared.
pub fn has_duplicate_path<F>(paths: &Vec<Path<F>>, new_path: &Path<F>) -> (r: bool)
    ensures
        r == has_route(paths@, new_path.edges@),
{
    let mut i: usize = 0;
    while i < paths.len()
        invariant
            i <= paths.len(),
            forall|j: int| 0 <= j < i ==> paths@[j].edges@ != new_path.edges@,
        decreases paths.len() - i,
    {
        if paths[i].eq(new_path) {
            return true;
        }
        i += 1;
    }
    false
}

/// Appends `new_path` to the routes of `commodity` unless a route over the
/// same edges is already there.
pub fn add_path_if_unique<F>(commodity: &mut Commodity<F>, new_path: Path<F>)
    ensures
        final(commodity).paths@ == added_if_unique(old(commodity).paths@, new_path),
        final(commodity).source == old(commodity).source,
        final(commodity).target == old(commodity).target,
        final(commodity).demand == old(commodity).demand,
{
    let path_exists = has_duplicate_path(&commodity.paths, &new_path);
    if !path_exists {
        commodity.paths.push(new_path);
    }
}

/// The position of the first route in `paths` over exactly `edges`, if any.
pub fn find_path<F>(paths: &Vec<Path<F>>, edges: &Vec<usize>) -> (r: Option<usize>)
    ensures
        match r {
            Some(i) => first_route_index(paths@, edges@) == Some(i as int),
            None => first_route_index(paths@, edges@) is None,
        },
{
    let mut i: usize = 0;
    while i < paths.len()
        invariant
            i <= paths.len(),
            forall|j: int| 0 <= j < i ==> paths@[j].edges@ != edges@,
        decreases paths.len() - i,
    {
        if same_edges(&paths[i].edges, edges) {
            proof {
                lemma_first_route_index(paths@, edges@, i as int);
            }
            return Some(i);
        }
        i += 1;
    }
    proof {
        lemma_no_route_index(paths@, edges@);
    }
    None
}

proof fn lemma_first_route_index<F>(paths: Seq<Path<F>>, edges: Seq<usize>, i: int)
    requires
        0 <= i < paths.len(),
        paths[i].edges@ == edges,
        forall|j: int| 0 <= j < i ==> paths[j].edges@ != edges,
    ensures
        first_route_index(paths, edges) == Some(i),
    decreases i,
{
    if i > 0 {
        let rest = paths.drop_first();
        assert forall|j: int| 0 <= j < i - 1 implies rest[j].edges@ != edges by {
            assert(rest[j] == paths[j + 1]);
        }
        lemma_first_route_index(rest, edges, i - 1);
    }
}

proof fn lemma_no_route_index<F>(paths: Seq<Path<F>>, edges: Seq<usize>)
    requires
        forall|j: int| 0 <= j < paths.len() ==> paths[j].edges@ != edges,
    ensures
        first_route_index(paths, edges) is None,
    decreases paths.len(),
{
    if paths.len() > 0 {
        let rest = paths.drop_first();
        assert forall|j: int| 0 <= j < rest.len() implies rest[j].edges@ != edges by {
            assert(rest[j] == paths[j + 1]);
        }
        lemma_no_route_index(rest, edges);
    }
}

/// The first route found for an edge list is one over that edge list, and
/// no earlier route is.
pub proof fn law_first_route_index<F>(paths: Seq<Path<F>>, edges: Seq<usize>)
    ensures
        match first_route_index(paths, edges) {
            Some(i) => 0 <= i < paths.len() && paths[i].edges@ == edges && forall|j: int|
                0 <= j < i ==> paths[j].edges@ != edges,
            None => !has_route(paths, edges),
        },
    decreases paths.len(),
{
    if paths.len() > 0 {
        let rest = paths.drop_first();
        law_first_route_index(rest, edges);
        if paths[0].edges@ != edges {
            match first_route_index(rest, edges) {
                Some(i) => {
                    assert(rest[i] == paths[i + 1]);
                    assert forall|j: int| 0 <= j < i + 1 implies paths[j].edges@ != edges by {
                        if j > 0 {
                            assert(rest[j - 1] == paths[j]);
                        }
                    }
                },
                None => {
                    assert forall|j: int| 0 <= j < paths.len() implies paths[j].edges@
                        != edges by {
                        if j > 0 {
                            assert(rest[j - 1] == paths[j]);
                        }
                    }
                },
            }
        }
    }
}

/// After a route is offered, a route over its edges is present.
pub proof fn law_offered_route_present<F>(paths: Seq<Path<F>>, new_path: Path<F>)
    ensures
        has_route(added_if_unique(paths, new_path), new_path.edges@),
{
    if !has_route(paths, new_path.edges@) {
        let ps = paths.push(new_path);
        assert(ps[paths.len() as int] == new_path);
    }
}

/// Offering a route over edges that are already present changes nothing, so
/// offering the same route twice is the same as offering it once.
pub proof fn law_offer_idempotent<F>(paths: Seq<Path<F>>, p: Path<F>, q: Path<F>)
    requires
        q.edges@ == p.edges@,
    ensures
        added_if_unique(added_if_unique(paths, p), q) == added_if_unique(paths, p),
{
    law_offered_route_present(paths, p);
}

/// Offering a route keeps every route already there, in its place.
pub proof fn law_offer_keeps_routes<F>(paths: Seq<Path<F>>, new_path: Path<F>)
    ensures
        added_if_unique(paths, new_path).len() >= paths.len(),
        forall|i: int|
            0 <= i < paths.len() ==> #[trigger] added_if_unique(paths, new_path)[i] == paths[i],
{
}

/// Routes built only by offering stay free of duplicate edge lists.
pub proof fn law_offer_keeps_distinct<F>(paths: Seq<Path<F>>, new_path: Path<F>)
    requires
        distinct_routes(paths),
    ensures
        distinct_routes(added_if_unique(paths, new_path)),
{
    if !has_route(paths, new_path.edges@) {
        let ps = paths.push(new_path);
        assert forall|i: int, j: int|
            0 <= i < ps.len() && 0 <= j < ps.len() && i != j implies #[trigger] ps[i].edges@
            != #[trigger] ps[j].edges@ by {
            if i == paths.len() {
                assert(ps[j] == paths[j]);
            } else if j == paths.len() {
                assert(ps[i] == paths[i]);
            } else {
                assert(ps[i] == paths[i]);
                assert(ps[j] == paths[j]);
            }
        }
    }
}


proof fn lemma_push_contains(s: Seq<usize>, x: usize, y: usize)
    ensures
        s.push(x).contains(y) <==> (s.contains(y) || y == x),
{
    let t = s.push(x);
    if s.contains(y) {
        let k = choose|k: int| 0 <= k < s.len() && #[trigger] s[k] == y;
        assert(t[k] == y);
    }
    if t.contains(y) && y != x {
        let k = choose|k: int| 0 <= k < t.len() && #[trigger] t[k] == y;
        assert(s[k] == y);
    }
    assert(t[s.len() as int] == x);
}

fn vec_contains(v: &Vec<usize>, x: usize) -> (r: bool)
    ensures
        r == v@.contains(x),
{
    let mut i: usize = 0;
    while i < v.len()
        invariant
            i <= v.len(),
            forall|j: int| 0 <= j < i ==> v@[j] != x,
        decreases v.len() - i,
    {
        if v[i] == x {
            return true;
        }
        i += 1;
    }
    false
}

/// Edge `x` lies on exactly one of the two routes `a` and `b`.
pub open spec fn on_exactly_one(a: Seq<usize>, b: Seq<usize>, x: usize) -> bool {
    a.contains(x) != b.contains(x)
}

/// The edges on exactly one of two routes do not depend on their order, and
/// no edge lies on exactly one of a route and itself.
pub proof fn law_on_exactly_one(a: Seq<usize>, b: Seq<usize>, x: usize)
    ensures
        on_exactly_one(a, b, x) == on_exactly_one(b, a, x),
        !on_exactly_one(a, a, x),
{
}

/// The edges of `s` that are not on `other`, each listed once, in order of
/// first appearance in `s`.
pub open spec fn first_only(s: Seq<usize>, other: Seq<usize>) -> Seq<usize>
    decreases s.len(),
{
    if s.len() == 0 {
        Seq::empty()
    } else {
        let r = first_only(s.drop_last(), other);
        let x = s.last();
        if other.contains(x) || r.contains(x) {
            r
        } else {
            r.push(x)
        }
    }
}

proof fn lemma_first_only_within(s: Seq<usize>, other: Seq<usize>, x: usize)
    requires
        first_only(s, other).contains(x),
    ensures
        s.contains(x),
    decreases s.len(),
{
    let r = first_only(s.drop_last(), other);
    if r.contains(x) {
        lemma_first_only_within(s.drop_last(), other, x);
        let k = choose|k: int| 0 <= k < s.drop_last().len() && #[trigger] s.drop_last()[k] == x;
        assert(s[k] == x);
    } else {
        lemma_push_contains(r, s.last(), x);
        assert(s[s.len() - 1] == x);
    }
}

/// Some position of `s` before `j` holds `x`.
pub open spec fn occurs_before(s: Seq<usize>, j: int, x: usize) -> bool {
    exists|i: int| 0 <= i < j && #[trigger] s[i] == x
}

/// The edges kept from `s` are the distinct edges of `s` that are not on
/// `other`, in order of first appearance in `s`: an occurrence in `s` of a
/// later one is always preceded by an occurrence of each earlier one.
pub proof fn law_first_only(s: Seq<usize>, other: Seq<usize>)
    ensures
        first_only(s, other).no_duplicates(),
        forall|x: usize| first_only(s, other).contains(x) <==> (s.contains(x) && !other.contains(x)),
        forall|p: int, q: int, j: int|
            #![trigger first_only(s, other)[p], first_only(s, other)[q], s[j]]
            0 <= p < q < first_only(s, other).len() && 0 <= j < s.len() && s[j] == first_only(s, other)[q]
                ==> occurs_before(s, j, first_only(s, other)[p]),
    decreases s.len(),
{
    if s.len() > 0 {
        let s1 = s.drop_last();
        let x = s.last();
        let r1 = first_only(s1, other);
        let r = first_only(s, other);
        law_first_only(s1, other);
        assert forall|y: usize| s.contains(y) <==> (s1.contains(y) || y == x) by {
            assert(s =~= s1.push(x));
            lemma_push_contains(s1, x, y);
        }
        assert forall|y: usize| r.contains(y) <==> (s.contains(y) && !other.contains(y)) by {
            if r != r1 {
                lemma_push_contains(r1, x, y);
            }
        }
        assert forall|p: int, q: int, j: int|
            #![trigger first_only(s, other)[p], first_only(s, other)[q], s[j]]
            0 <= p < q < first_only(s, other).len() && 0 <= j < s.len() && s[j] == first_only(s, other)[q] implies
            occurs_before(s, j, first_only(s, other)[p]) by {
            if q < r1.len() {
                assert(r[q] == r1[q]);
                assert(r[p] == r1[p]);
                if j < s1.len() {
                    assert(s1[j] == r1[q]);
                    assert(occurs_before(s1, j, r1[p]));
                    let i = choose|i: int| 0 <= i < j && #[trigger] s1[i] == r1[p];
                    assert(s[i] == r[p]);
                } else {
                    assert(r1.contains(r1[q]));
                    assert(s1.contains(r1[q]));
                    let j1 = choose|j1: int| 0 <= j1 < s1.len() && s1[j1] == r1[q];
                    assert(s1[j1] == r1[q]);
                    assert(occurs_before(s1, j1, r1[p]));
                    let i = choose|i: int| 0 <= i < j1 && #[trigger] s1[i] == r1[p];
                    assert(s[i] == r[p]);
                }
            } else {
                assert(r =~= r1.push(x));
                assert(r[q] == x);
                assert(r[p] == r1[p]);
                assert(r1.contains(r1[p]));
                assert(s1.contains(r1[p]));
                let i = choose|i: int| 0 <= i < s1.len() && s1[i] == r1[p];
                assert(s[i] == r[p]);
                if j < s1.len() {
                    assert(s1[j] == x);
                    assert(s1.contains(x));
                    assert(r1.contains(x));
                }
            }
        }
    } else {
        assert(first_only(s, other).len() == 0);
    }
}

/// The edges that lie on exactly one of the two routes `a` and `b`, each
/// listed once: first those of `a`, then those of `b`, in order of first
/// appearance.
pub fn symmetric_difference(a: &Vec<usize>, b: &Vec<usize>) -> (r: Vec<usize>)
    ensures
        r@ == first_only(a@, b@) + first_only(b@, a@),
        r@.no_duplicates(),
        forall|x: usize| r@.contains(x) <==> on_exactly_one(a@, b@, x),
{
    let mut r: Vec<usize> = Vec::new();
    let mut i: usize = 0;
    while i < a.len()
        invariant
            i <= a.len(),
            r@.no_duplicates(),
            forall|x: usize|
                r@.contains(x) <==> (a@.subrange(0, i as int).contains(x) && !b@.contains(x)),
            r@ == first_only(a@.subrange(0, i as int), b@),
        decreases a.len() - i,
    {
        let x = a[i];
        let ghost old_r = r@;
        if !vec_contains(b, x) && !vec_contains(&r, x) {
            r.push(x);
        }
        proof {
            let pre = a@.subrange(0, i as int);
            let pre1 = a@.subrange(0, i + 1);
            assert(pre1 =~= pre.push(x));
            assert(pre1.drop_last() =~= pre);
            assert(pre1.last() == x);
            assert forall|y: usize| pre1.contains(y) <==> (pre.contains(y) || y == x) by {
                lemma_push_contains(pre, x, y);
            }
            assert forall|y: usize| r@.contains(y) <==> (old_r.contains(y) || (r@.len() > old_r.len() && y == x)) by {
                lemma_push_contains(old_r, x, y);
            }
            assert(a@[i as int] == x);
            assert forall|y: usize|
                r@.contains(y) <==> (pre1.contains(y) && !b@.contains(y)) by {
                assert(old_r.contains(y) <==> (pre.contains(y) && !b@.contains(y)));
                if y == x {
                    if old_r.contains(x) {
                        assert(pre.contains(x));
                    }
                }
            }
        }
        i += 1;
    }
    assert(a@.subrange(0, a.len() as int) =~= a@);
    assert(b@.subrange(0, 0) =~= Seq::<usize>::empty());
    assert(r@ =~= first_only(a@, b@) + first_only(b@.subrange(0, 0), a@));
    let mut j: usize = 0;
    while j < b.len()
        invariant
            j <= b.len(),
            r@.no_duplicates(),
            forall|x: usize|
                r@.contains(x) <==> ((a@.contains(x) && !b@.contains(x)) || (b@.subrange(
                    0,
                    j as int,
                ).contains(x) && !a@.contains(x))),
            r@ == first_only(a@, b@) + first_only(b@.subrange(0, j as int), a@),
        decreases b.len() - j,
    {
        let x = b[j];
        let ghost old_r = r@;
        if !vec_contains(a, x) && !vec_contains(&r, x) {
            r.push(x);
        }
        proof {
            let pre = b@.subrange(0, j as int);
            let pre1 = b@.subrange(0, j + 1);
            assert(pre1 =~= pre.push(x));
            assert(pre1.drop_last() =~= pre);
            assert(pre1.last() == x);
            let fa = first_only(a@, b@);
            let fb = first_only(pre, a@);
            assert(old_r == fa + fb);
            if !a@.contains(x) {
                if fa.contains(x) {
                    lemma_first_only_within(a@, b@, x);
                }
                assert((fa + fb).contains(x) <==> fb.contains(x)) by {
                    if (fa + fb).contains(x) {
                        let k = choose|k: int| 0 <= k < (fa + fb).len() && #[trigger] (fa + fb)[k] == x;
                        if k < fa.len() {
                            assert(fa[k] == x);
                        } else {
                            assert(fb[k - fa.len()] == x);
                        }
                    }
                    if fb.contains(x) {
                        let k = choose|k: int| 0 <= k < fb.len() && #[trigger] fb[k] == x;
                        assert((fa + fb)[k + fa.len()] == x);
                    }
                }
                assert((fa + fb).push(x) =~= fa + fb.push(x));
            }
            assert forall|y: usize| pre1.contains(y) <==> (pre.contains(y) || y == x) by {
                lemma_push_contains(pre, x, y);
            }
            assert forall|y: usize| r@.contains(y) <==> (old_r.contains(y) || (r@.len() > old_r.len() && y == x)) by {
                lemma_push_contains(old_r, x, y);
            }
            assert(b@[j as int] == x);
        }
        j += 1;
    }
    assert(b@.subrange(0, b.len() as int) =~= b@);
    r
}

/// The edges met when following predecessor links back from `v`, nearest
/// first: each entry `previous[v] == Some((u, e))` says that `v` was reached
/// from `u` over edge `e`, and `None` ends the chain. At most `fuel` links are
/// followed; `None` when the chain is longer.
pub open spec fn back_chain(previous: Seq<Option<(usize, usize)>>, v: int, fuel: nat) -> Option<
    Seq<usize>,
>
    decreases fuel,
{
    match previous[v] {
        None => Some(Seq::empty()),
        Some(link) => if fuel == 0 {
            None
        } else {
            match back_chain(previous, link.0 as int, (fuel - 1) as nat) {
                Some(rest) => Some(seq![link.1].add(rest)),
                None => None,
            }
        },
    }
}

/// Every vertex met when following at most `fuel` predecessor links back
/// from `v` is a valid position in `previous`.
pub open spec fn chain_in_bounds(previous: Seq<Option<(usize, usize)>>, v: int, fuel: nat) -> bool
    decreases fuel,
{
    &&& 0 <= v < previous.len()
    &&& match previous[v] {
        None => true,
        Some(link) => fuel == 0 || chain_in_bounds(previous, link.0 as int, (fuel - 1) as nat),
    }
}

/// Whether following predecessor links back from `target`, at most as many
/// as there are vertices, stays within `previous`; `trace_back` asks this.
pub fn chain_stays_in_bounds(previous: &Vec<Option<(usize, usize)>>, target: usize) -> (r: bool)
    ensures
        r == chain_in_bounds(previous@, target as int, previous.len() as nat),
{
    let n = previous.len();
    if target >= n {
        return false;
    }
    let mut current = target;
    let mut fuel: usize = n;
    loop
        invariant
            n == previous.len(),
            current < n,
            fuel <= n,
            chain_in_bounds(previous@, target as int, n as nat) == chain_in_bounds(
                previous@,
                current as int,
                fuel as nat,
            ),
        decreases fuel,
    {
        match previous[current] {
            None => {
                return true;
            },
            Some(link) => {
                if fuel == 0 {
                    return true;
                }
                if link.0 >= n {
                    assert(!chain_in_bounds(previous@, link.0 as int, (fuel - 1) as nat));
                    return false;
                }
                current = link.0;
                fuel = fuel - 1;
            },
        }
    }
}


pub(crate) proof fn lemma_reverse_prepend(e: usize, s: Seq<usize>)
    ensures
        (seq![e].add(s)).reverse() =~= s.reverse().push(e),
{
    let t = seq![e].add(s);
    assert(t.len() == s.len() + 1);
    assert forall|i: int| 0 <= i < t.len() implies #[trigger] t.reverse()[i] == s.reverse().push(e)[i] by {
        if i < s.len() {
            assert(t.reverse()[i] == t[t.len() - 1 - i]);
            assert(t[t.len() - 1 - i] == s[s.len() - 1 - i]);
        }
    }
}

/// A chain read back from predecessor links is made of recorded links: in
/// forward order its edges join nodes `w[0], ..., w[m]` ending at `v`, the
/// first of which has no predecessor and each later one is recorded as
/// reached from the one before over the edge between them; and it is no
/// longer than the links allowed. When there is no chain, the links from `v`
/// run on for more than `fuel` steps.
pub proof fn law_back_chain_links(previous: Seq<Option<(usize, usize)>>, v: usize, fuel: nat)
    ensures
        back_chain(previous, v as int, fuel) is None ==> exists|w: Seq<usize>|
            {
                &&& w.len() == fuel + 1
                &&& w.last() == v
                &&& previous[w[0] as int] is Some
                &&& forall|k: int|
                    0 <= k < fuel ==> (previous[#[trigger] w[k + 1] as int] matches Some(l) && l.0 == w[k])
            },
        back_chain(previous, v as int, fuel) matches Some(s) ==> s.len() <= fuel && exists|w: Seq<usize>|
            {
                &&& w.len() == s.len() + 1
                &&& w.last() == v
                &&& previous[w[0] as int] is None
                &&& forall|k: int|
                    0 <= k < s.len() ==> previous[#[trigger] w[k + 1] as int] == Some(
                        (w[k], s.reverse()[k]),
                    )
            },
    decreases fuel,
{
    match previous[v as int] {
        None => {
            let w = seq![v];
            assert(w.last() == v);
        },
        Some(link) => {
            if fuel > 0 {
                law_back_chain_links(previous, link.0, (fuel - 1) as nat);
                match back_chain(previous, link.0 as int, (fuel - 1) as nat) {
                    Some(s1) => {
                        let w1 = choose|w: Seq<usize>|
                            {
                                &&& w.len() == s1.len() + 1
                                &&& w.last() == link.0
                                &&& previous[w[0] as int] is None
                                &&& forall|k: int|
                                    0 <= k < s1.len() ==> previous[#[trigger] w[k + 1] as int] == Some(
                                        (w[k], s1.reverse()[k]),
                                    )
                            };
                        let s = seq![link.1].add(s1);
                        lemma_reverse_prepend(link.1, s1);
                        let w = w1.push(v);
                        assert(w[0] == w1[0]);
                        assert forall|k: int| 0 <= k < s.len() implies previous[#[trigger] w[k + 1] as int]
                            == Some((w[k], s.reverse()[k])) by {
                            if k < s1.len() {
                                assert(w[k + 1] == w1[k + 1]);
                                assert(w[k] == w1[k]);
                                assert(s.reverse()[k] == s1.reverse()[k]);
                            } else {
                                assert(w[k + 1] == v);
                                assert(w[k] == w1.last());
                                assert(s.reverse()[k] == link.1);
                            }
                        }
                        assert(w.last() == v);
                    },
                    None => {
                        let w1 = choose|w: Seq<usize>|
                            {
                                &&& w.len() == (fuel - 1) + 1
                                &&& w.last() == link.0
                                &&& previous[w[0] as int] is Some
                                &&& forall|k: int|
                                    0 <= k < fuel - 1 ==> (previous[#[trigger] w[k + 1] as int] matches Some(l)
                                        && l.0 == w[k])
                            };
                        let w = w1.push(v);
                        assert(w[0] == w1[0]);
                        assert forall|k: int| 0 <= k < fuel implies (previous[#[trigger] w[k + 1] as int] matches Some(l)
                            && l.0 == w[k]) by {
                            if k < fuel - 1 {
                                assert(w[k + 1] == w1[k + 1]);
                                assert(w[k] == w1[k]);
                            } else {
                                assert(w[k + 1] == v);
                                assert(w[k] == w1.last());
                            }
                        }
                        assert(w.last() == v);
                    },
                }
            } else {
                let w = seq![v];
                assert(w.last() == v);
                assert(w[0] == v);
            }
        },
    }
}

/// Rebuilds the route that ends at `target` from predecessor links, in order
/// from the start of the chain to `target`. A chain that has not ended after
/// as many links as there are vertices runs in a cycle; then the result is
/// `None`.
pub fn trace_back(previous: &Vec<Option<(usize, usize)>>, target: usize) -> (r: Option<Vec<usize>>)
    requires
        chain_in_bounds(previous@, target as int, previous.len() as nat),
    ensures
        match back_chain(previous@, target as int, previous.len() as nat) {
            Some(s) => r matches Some(p) && p@ == s.reverse(),
            None => r is None,
        },
{
    let n = previous.len();
    let mut rev: Vec<usize> = Vec::new();
    let mut current = target;
    let mut fuel: usize = n;
    loop
        invariant
            fuel <= n,
            n == previous.len(),
            chain_in_bounds(previous@, current as int, fuel as nat),
            back_chain(previous@, target as int, n as nat) == match back_chain(
                previous@,
                current as int,
                fuel as nat,
            ) {
                Some(s) => Some(rev@.add(s)),
                None => None::<Seq<usize>>,
            },
        ensures
            back_chain(previous@, target as int, n as nat) == Some(rev@),
        decreases fuel,
    {
        match previous[current] {
            None => {
                assert(rev@.add(Seq::empty()) =~= rev@);
                break ;
            },
            Some(link) => {
                if fuel == 0 {
                    return None;
                }
                let ghost old_rev = rev@;
                proof {
                    match back_chain(previous@, link.0 as int, (fuel - 1) as nat) {
                        Some(s) => {
                            assert(old_rev.add(seq![link.1].add(s)) =~= old_rev.push(link.1).add(
                                s,
                            ));
                        },
                        None => {},
                    }
                }
                rev.push(link.1);
                current = link.0;
                fuel = fuel - 1;
            },
        }
    }
    let mut path: Vec<usize> = Vec::new();
    let mut k: usize = rev.len();
    while k > 0
        invariant
            k <= rev.len(),
            path@ =~= rev@.reverse().subrange(0, (rev.len() - k) as int),
        decreases k,
    {
        k -= 1;
        path.push(rev[k]);
    }
    assert(rev@.reverse().subrange(0, rev.len() as int) =~= rev@.reverse());
    Some(path)
}

} // verus!
