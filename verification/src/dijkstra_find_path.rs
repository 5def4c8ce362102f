use std::collections::HashMap;
use vstd::prelude::*;
use crate::graph::DirectedEdge;
use crate::graph::EdgeWeightedDigraph;
use crate::graph::adjacency_ok;
use crate::index_min_pq::IndexMinPQ;

verus! {

/// The distance of a vertex that no path of representable cost reaches.
pub const UNREACHED: u64 = u64::MAX;

/// Whether `e`, cost and capacity included, is an edge of the adjacency lists.
pub open spec fn is_edge_of(adj: Seq<Seq<DirectedEdge>>, e: DirectedEdge) -> bool {
    0 <= e.v < adj.len() && adj[e.v as int].contains(e)
}

/// Whether `path` lists, last edge first, the edges of a walk from `s` to `t`.
pub open spec fn is_reverse_path(
    adj: Seq<Seq<DirectedEdge>>,
    path: Seq<DirectedEdge>,
    s: int,
    t: int,
) -> bool
    decreases path.len(),
{
    if path.len() == 0 {
        s == t
    } else {
        &&& is_edge_of(adj, path[0])
        &&& path[0].w == t
        &&& is_reverse_path(adj, path.drop_first(), s, path[0].v as int)
    }
}

/// Whether the path `p`, listed last edge first, enters no vertex of `banned` and no
/// vertex twice.
pub open spec fn fresh(p: Seq<DirectedEdge>, banned: Set<int>) -> bool {
    &&& forall|i: int| 0 <= i < p.len() ==> !banned.contains((#[trigger] p[i]).w as int)
    &&& forall|i: int, j: int| 0 <= i < j < p.len() ==> (#[trigger] p[i]).w != (#[trigger] p[j]).w
}

/// Whether `p` lists, last edge first, the edges of a path from `s` to `t` that passes no
/// vertex twice.
pub open spec fn is_simple_path(adj: Seq<Seq<DirectedEdge>>, p: Seq<DirectedEdge>, s: int, t: int) -> bool {
    is_reverse_path(adj, p, s, t) && fresh(p, set![s])
}

/// The sum of the costs of the edges of `path`.
pub open spec fn path_cost(path: Seq<DirectedEdge>) -> nat
    decreases path.len(),
{
    if path.len() == 0 {
        0
    } else {
        path[0].cost as nat + path_cost(path.drop_first())
    }
}

/// Whether `d` is the least cost of a walk from `s` to `v`, or `UNREACHED` where no walk
/// costs less than that. A least cost below `UNREACHED` is the cost of a path that passes
/// no vertex twice.
pub open spec fn is_shortest_distance(adj: Seq<Seq<DirectedEdge>>, s: int, v: int, d: u64) -> bool {
    &&& forall|p: Seq<DirectedEdge>| #[trigger] is_reverse_path(adj, p, s, v) ==> d <= path_cost(p)
    &&& d < UNREACHED ==> exists|p: Seq<DirectedEdge>| #[trigger]
        is_simple_path(adj, p, s, v) && path_cost(p) == d
}

/// A walk stays a walk, and its cost grows by the cost of the edge, when an edge that
/// ends where the walk starts is put before it.
pub proof fn lemma_path_extend(
    adj: Seq<Seq<DirectedEdge>>,
    path: Seq<DirectedEdge>,
    s: int,
    t: int,
    e: DirectedEdge,
)
    requires
        is_reverse_path(adj, path, s, t),
        is_edge_of(adj, e),
        e.w == s,
    ensures
        is_reverse_path(adj, path.push(e), e.v as int, t),
        path_cost(path.push(e)) == path_cost(path) + e.cost,
    decreases path.len(),
{
    let longer = path.push(e);
    if path.len() == 0 {
        assert(longer.drop_first() =~= Seq::<DirectedEdge>::empty());
        assert(path_cost(longer.drop_first()) == 0);
        assert(is_reverse_path(adj, longer.drop_first(), e.v as int, e.v as int));
    } else {
        lemma_path_extend(adj, path.drop_first(), s, path[0].v as int, e);
        assert(longer.drop_first() =~= path.drop_first().push(e));
    }
}

/// The result of a single-source shortest path search: for each vertex its distance from
/// the source and the last edge of a shortest path to it.
pub struct DijkstraSP {
    edge_to: HashMap<i32, DirectedEdge>,
    dist_to: Vec<u64>,
    pq: IndexMinPQ,
    source: i32,
    graph: Ghost<Seq<Seq<DirectedEdge>>>,
    settled: Ghost<Set<int>>,
    rank: Ghost<Seq<nat>>,
    level: Ghost<u64>,
}

impl DijkstraSP {
    /// The adjacency lists the search ran on, with the costs of that moment.
    pub closed spec fn graph(&self) -> Seq<Seq<DirectedEdge>> {
        self.graph@
    }

    /// The vertex the search started from.
    pub closed spec fn source(&self) -> int {
        self.source as int
    }

    /// The distance found for `v`; `UNREACHED` for what is no vertex of the graph.
    pub closed spec fn dist(&self, v: int) -> u64 {
        if 0 <= v < self.dist_to@.len() {
            self.dist_to@[v]
        } else {
            UNREACHED
        }
    }

    /// The edge by which the search reached `v`; `None` for the source, for a vertex that
    /// was not reached, and for what is no vertex of the graph.
    pub closed spec fn reached_by(&self, v: int) -> Option<DirectedEdge> {
        if 0 <= v < self.dist_to@.len() {
            self.edge_at(v)
        } else {
            None
        }
    }

    /// The edge kept for the vertex `v`, if one is kept.
    spec fn edge_at(&self, v: int) -> Option<DirectedEdge> {
        if i32::MIN <= v <= i32::MAX && self.edge_to@.contains_key(v as i32) {
            Some(self.edge_to@[v as i32])
        } else {
            None
        }
    }

    spec fn base_ok(&self) -> bool {
        let n = self.graph@.len();
        &&& adjacency_ok(self.graph@)
        &&& n < i32::MAX
        &&& self.dist_to@.len() == n
        &&& self.rank@.len() == n
        &&& 0 <= self.source < n
        &&& self.dist_to@[self.source as int] == 0
        &&& self.edge_at(self.source as int) is None
        &&& self.pq.wf()
        &&& self.pq.capacity() == n
        &&& self.settled@.finite()
        &&& forall|v: int| #[trigger]
            self.settled@.contains(v) ==> 0 <= v < n && self.dist_to@[v] < UNREACHED
                && self.rank@[v] < self.settled@.len() && self.dist_to@[v] <= self.level@
        &&& forall|x: int|
            0 <= x < n && !self.settled@.contains(x) ==> self.level@ <= #[trigger] self.dist_to@[x]
    }

    spec fn tree_ok(&self, v: int) -> bool {
        if self.dist_to@[v] == UNREACHED {
            self.edge_at(v) is None
        } else {
            &&& self.edge_at(v) matches Some(e)
            &&& is_edge_of(self.graph@, e)
            &&& e.w == v
            &&& self.settled@.contains(e.v as int)
            &&& self.dist_to@[v] == self.dist_to@[e.v as int] + e.cost
            &&& self.settled@.contains(v) ==> self.rank@[e.v as int] < self.rank@[v]
        }
    }

    spec fn queue_ok(&self, v: int) -> bool {
        &&& self.pq@.contains_key(v) == (!self.settled@.contains(v) && self.dist_to@[v] < UNREACHED)
        &&& self.pq@.contains_key(v) ==> self.pq@[v] == self.dist_to@[v]
    }

    spec fn relaxed(&self, u: int, j: int) -> bool {
        self.dist_to@[self.graph@[u][j].w as int] <= self.dist_to@[u] + self.graph@[u][j].cost
    }

    spec fn inv_upto(&self, cur: int, upto: int) -> bool {
        let n = self.graph@.len();
        &&& self.base_ok()
        &&& forall|v: int| 0 <= v < n && v != self.source ==> #[trigger] self.tree_ok(v)
        &&& forall|v: int| 0 <= v < n ==> #[trigger] self.queue_ok(v)
        &&& forall|u: int, j: int|
            self.settled@.contains(u) && 0 <= j < self.graph@[u].len() && (u != cur || j < upto)
                ==> #[trigger] self.relaxed(u, j)
        &&& cur >= 0 ==> self.settled@.contains(cur) && self.dist_to@[cur] == self.level@
    }

    /// The search has run to its end: every distance is final and every reached vertex
    /// other than the source has the edge it was reached by.
    pub closed spec fn wf(&self) -> bool {
        &&& self.inv_upto(-1, 0)
        &&& self.pq@ == Map::<int, u64>::empty()
    }

    /// The edges by which the search reached `v`, back to the source: first the edge that
    /// `v` was reached by, then the edge by which the vertex was reached that this edge
    /// leaves, and so on.
    pub closed spec fn path_of(&self, v: int) -> Seq<DirectedEdge> {
        self.walk_back(v)
    }

    spec fn walk_back(&self, v: int) -> Seq<DirectedEdge>
        decreases self.rank@[v],
        when self.wf() && 0 <= v < self.graph@.len() && self.dist_to@[v] < UNREACHED
        via Self::walk_back_ends
    {
        if v == self.source {
            Seq::empty()
        } else {
            seq![self.edge_at(v)->0] + self.walk_back((self.edge_at(v)->0).v as int)
        }
    }

    #[via_fn]
    proof fn walk_back_ends(&self, v: int) {
        if v != self.source {
            assert(self.tree_ok(v));
            assert(self.queue_ok(v));
        }
    }

    /// How the path of a vertex is made up: the source has the path without edges, and
    /// every other vertex that was reached has the edge it was reached by, followed by
    /// the path of the vertex that edge leaves.
    pub proof fn lemma_path_of(&self, v: int)
        requires
            self.wf(),
            0 <= v < self.graph().len(),
            self.dist(v) < UNREACHED,
        ensures
            v == self.source() ==> self.path_of(v) == Seq::<DirectedEdge>::empty(),
            v != self.source() ==> {
                &&& self.reached_by(v) matches Some(e)
                &&& self.path_of(v) == seq![e] + self.path_of(e.v as int)
            },
    {
        if v != self.source {
            assert(self.tree_ok(v));
        }
    }

    /// The source has the distance zero. Every other vertex that was reached has the edge
    /// it was reached by, an edge of the graph that ends there, and its distance is the
    /// distance of the vertex that edge leaves plus the cost of the edge.
    pub proof fn lemma_tree(&self, v: int)
        requires
            self.wf(),
            0 <= v < self.graph().len(),
        ensures
            0 <= self.source() < self.graph().len(),
            self.dist(self.source()) == 0,
            self.reached_by(self.source()) is None,
            self.dist(v) == UNREACHED ==> self.reached_by(v) is None,
            v != self.source() && self.dist(v) < UNREACHED ==> {
                &&& self.reached_by(v) matches Some(e)
                &&& is_edge_of(self.graph(), e)
                &&& e.w == v
                &&& self.dist(e.v as int) < UNREACHED
                &&& self.dist(v) == self.dist(e.v as int) + e.cost
            },
    {
        if v != self.source() {
            assert(self.tree_ok(v));
            if self.dist(v) < UNREACHED {
                let e = self.edge_at(v)->0;
                assert(self.graph@[e.v as int].contains(e));
            }
        }
    }

    /// No walk from the source to `v` costs less than the distance found for `v`.
    pub proof fn lemma_lower_bound(&self, p: Seq<DirectedEdge>, v: int)
        requires
            self.wf(),
            is_reverse_path(self.graph(), p, self.source(), v),
        ensures
            0 <= v < self.graph().len(),
            self.dist(v) <= path_cost(p),
        decreases p.len(),
    {
        if p.len() > 0 {
            let e = p[0];
            let u = e.v as int;
            self.lemma_lower_bound(p.drop_first(), u);
            let j = choose|j: int| 0 <= j < self.graph@[u].len() && self.graph@[u][j] == e;
            assert(self.graph@[u][j].w == v);
            if self.dist_to@[u] < UNREACHED {
                assert(self.queue_ok(u));
                assert(self.relaxed(u, j));
            }
        }
    }

    spec fn tree_walk(&self, p: Seq<DirectedEdge>, v: int) -> bool {
        &&& is_simple_path(self.graph@, p, self.source as int, v)
        &&& path_cost(p) == self.dist(v)
        &&& forall|j: int|
            0 <= j < p.len() ==> 0 <= (#[trigger] p[j]).w < self.graph@.len()
                && self.rank@[p[j].w as int] <= self.rank@[v]
    }

    proof fn lemma_attained(&self, v: int)
        requires
            self.wf(),
            0 <= v < self.graph().len(),
            self.dist(v) < UNREACHED,
        ensures
            exists|p: Seq<DirectedEdge>| #[trigger] self.tree_walk(p, v),
        decreases self.rank@[v],
    {
        if v == self.source {
            let p = Seq::<DirectedEdge>::empty();
            assert(is_reverse_path(self.graph(), p, self.source(), v));
            assert(self.tree_walk(p, v));
        } else {
            assert(self.tree_ok(v));
            assert(self.queue_ok(v));
            let e = self.edge_at(v)->0;
            let u = e.v as int;
            self.lemma_attained(u);
            let rest = choose|p: Seq<DirectedEdge>| #[trigger] self.tree_walk(p, u);
            let p = seq![e] + rest;
            assert(p.drop_first() =~= rest);
            assert(is_reverse_path(self.graph(), p, self.source(), v) && path_cost(p) == self.dist(v));
            assert forall|j: int| 0 <= j < p.len() implies 0 <= (#[trigger] p[j]).w
                < self.graph@.len() && self.rank@[p[j].w as int] <= self.rank@[v] by {
                if j > 0 {
                    assert(p[j] == rest[j - 1]);
                }
            }
            assert forall|j: int| 0 <= j < p.len() implies !set![self.source as int].contains(
                (#[trigger] p[j]).w as int,
            ) by {
                if j > 0 {
                    assert(p[j] == rest[j - 1]);
                }
            }
            assert forall|a: int, b: int| 0 <= a < b < p.len() implies (#[trigger] p[a]).w != (
            #[trigger] p[b]).w by {
                assert(p[b] == rest[b - 1]);
                if a > 0 {
                    assert(p[a] == rest[a - 1]);
                } else {
                    assert(self.rank@[rest[b - 1].w as int] <= self.rank@[u]);
                }
            }
            assert(self.tree_walk(p, v));
        }
    }

    /// Every distance of a finished search is the shortest one.
    pub proof fn lemma_shortest(&self, v: int)
        requires
            self.wf(),
            0 <= v < self.graph().len(),
        ensures
            is_shortest_distance(self.graph(), self.source(), v, self.dist(v)),
    {
        assert forall|p: Seq<DirectedEdge>| #[trigger]
            is_reverse_path(self.graph(), p, self.source(), v) implies self.dist(v) <= path_cost(
            p,
        ) by {
            self.lemma_lower_bound(p, v);
        }
        if self.dist(v) < UNREACHED {
            self.lemma_attained(v);
            let p = choose|p: Seq<DirectedEdge>| #[trigger] self.tree_walk(p, v);
            assert(is_simple_path(self.graph(), p, self.source(), v) && path_cost(p) == self.dist(v));
        }
    }

    /// Runs the search on `graph` from the vertex `s`, with the costs the edges have now.
    pub fn dijkstra(graph: &EdgeWeightedDigraph, s: i32) -> (sp: DijkstraSP)
        requires
            graph.wf(),
            0 <= s < graph@.len(),
        ensures
            sp.wf(),
            sp.graph() == graph@,
            sp.source() == s,
            forall|v: int|
                0 <= v < graph@.len() ==> is_shortest_distance(
                    graph@,
                    s as int,
                    v,
                    #[trigger] sp.dist(v),
                ),
    {
        let n = graph.get_v_count();
        let mut dist_to: Vec<u64> = Vec::new();
        let edge_to: HashMap<i32, DirectedEdge> = HashMap::new();
        let mut i: i32 = 0;
        while i < n
            invariant
                0 <= i <= n,
                dist_to@.len() == i,
                forall|k: int| 0 <= k < i ==> #[trigger] dist_to@[k] == UNREACHED,
            decreases n - i,
        {
            dist_to.push(u64::MAX);
            i = i + 1;
        }
        dist_to[s as usize] = 0;
        let mut pq = IndexMinPQ::get_index_from_size(n);
        let r = pq.insert(s as usize, 0);
        let mut sp = DijkstraSP {
            edge_to,
            dist_to,
            pq,
            source: s,
            graph: Ghost(graph@),
            settled: Ghost(Set::<int>::empty()),
            rank: Ghost(Seq::new(n as nat, |k: int| 0nat)),
            level: Ghost(0u64),
        };
        proof {
            assert forall|v: int| 0 <= v < n && v != s implies #[trigger] sp.tree_ok(v) by {}
            assert forall|v: int| 0 <= v < n implies #[trigger] sp.queue_ok(v) by {}
            assert(sp.inv_upto(-1, 0));
        }
        while !sp.pq.is_empty()
            invariant
                graph.wf(),
                graph@ == sp.graph@,
                n == graph@.len(),
                sp.source == s,
                sp.inv_upto(-1, 0),
            decreases graph@.len() - sp.settled@.len(),
        {
            let ghost prev = sp;
            let v = sp.pq.del_min().unwrap();
            proof {
                assert(prev.queue_ok(v as int));
                sp.rank@ = prev.rank@.update(v as int, prev.settled@.len());
                sp.settled@ = prev.settled@.insert(v as int);
                sp.level@ = prev.dist_to@[v as int];
                let all = vstd::set_lib::set_int_range(0, n as int);
                vstd::set_lib::lemma_int_range(0, n as int);
                assert(sp.settled@.subset_of(all));
                vstd::set_lib::lemma_len_subset(sp.settled@, all);
                assert forall|x: int|
                    0 <= x < n && !sp.settled@.contains(x) implies sp.level@ <= #[trigger] sp.dist_to@[x] by {
                    assert(prev.queue_ok(x));
                }
                assert forall|x: int| 0 <= x < n && x != s implies #[trigger] sp.tree_ok(x) by {
                    assert(prev.tree_ok(x));
                }
                assert forall|x: int| 0 <= x < n implies #[trigger] sp.queue_ok(x) by {
                    assert(prev.queue_ok(x));
                }
                assert forall|u: int, j: int|
                    sp.settled@.contains(u) && 0 <= j < sp.graph@[u].len() && (u != v || j < 0)
                        implies #[trigger] sp.relaxed(u, j) by {
                    assert(prev.relaxed(u, j));
                }
                assert(sp.inv_upto(v as int, 0));
            }
            sp.relax(graph, v);
        }
        proof {
            assert forall|v: int| 0 <= v < graph@.len() implies is_shortest_distance(
                graph@,
                s as int,
                v,
                #[trigger] sp.dist(v),
            ) by {
                sp.lemma_shortest(v);
            }
        }
        sp
    }

    /// The distance found for `v`; `UNREACHED` if no path of smaller cost leads there.
    pub fn dist_to(&self, v: usize) -> (d: u64)
        requires
            self.wf(),
        ensures
            d == self.dist(v as int),
    {
        if v < self.dist_to.len() {
            self.dist_to[v]
        } else {
            UNREACHED
        }
    }

    /// Whether a path of cost below `UNREACHED` leads from the source to `v`.
    pub fn has_path_to(&self, v: usize) -> (b: bool)
        requires
            self.wf(),
        ensures
            b == (self.dist(v as int) < UNREACHED),
    {
        self.dist_to(v) < UNREACHED
    }

    /// The path by which the search reached `v`, its last edge first, or `None` where `v`
    /// is not reached. It is a shortest path from the source to `v` and passes no vertex
    /// twice.
    pub fn path_to(&self, v: usize) -> (r: Option<Vec<DirectedEdge>>)
        requires
            self.wf(),
        ensures
            match r {
                None => self.dist(v as int) == UNREACHED,
                Some(p) => {
                    &&& self.dist(v as int) < UNREACHED
                    &&& p@ == self.path_of(v as int)
                    &&& is_simple_path(self.graph(), p@, self.source(), v as int)
                    &&& path_cost(p@) == self.dist(v as int)
                },
            },
    {
        broadcast use vstd::std_specs::hash::group_hash_axioms;

        if !self.has_path_to(v) {
            return None;
        }
        let mut result: Vec<DirectedEdge> = Vec::new();
        let mut i = v;
        assert(is_reverse_path(self.graph@, result@, i as int, v as int));
        assert(result@ + self.path_of(i as int) =~= self.path_of(v as int));
        loop
            invariant
                self.wf(),
                0 <= i < self.graph@.len(),
                0 <= v < self.graph@.len(),
                self.dist_to@[i as int] < UNREACHED,
                is_reverse_path(self.graph@, result@, i as int, v as int),
                path_cost(result@) + self.dist_to@[i as int] == self.dist_to@[v as int],
                result@ + self.path_of(i as int) == self.path_of(v as int),
                forall|j: int|
                    0 <= j < result@.len() ==> 0 <= (#[trigger] result@[j]).w < self.graph@.len()
                        && self.rank@[result@[j].w as int] > self.rank@[i as int],
                forall|a: int, b: int|
                    0 <= a < b < result@.len() ==> self.rank@[(#[trigger] result@[a]).w as int]
                        > self.rank@[(#[trigger] result@[b]).w as int],
            ensures
                i == self.source,
                is_reverse_path(self.graph@, result@, i as int, v as int),
                path_cost(result@) + self.dist_to@[i as int] == self.dist_to@[v as int],
                result@ == self.path_of(v as int),
                0 <= v < self.graph@.len(),
                fresh(result@, set![i as int]),
            decreases self.rank@[i as int],
        {
            match self.edge_to.get(&(i as i32)) {
                None => {
                    proof {
                        if i != self.source {
                            assert(self.tree_ok(i as int));
                        }
                        self.lemma_path_of(i as int);
                        assert(result@ + Seq::<DirectedEdge>::empty() =~= result@);
                    }
                    break ;
                },
                Some(found) => {
                    let e = *found;
                    proof {
                        assert(self.tree_ok(i as int));
                        assert(self.queue_ok(i as int));
                        lemma_path_extend(self.graph@, result@, i as int, v as int, e);
                        self.lemma_path_of(i as int);
                        assert(result@.push(e) + self.path_of(e.v as int) =~= result@ + (seq![e]
                            + self.path_of(e.v as int)));
                    }
                    result.push(e);
                    i = e.v as usize;
                },
            }
        }
        Some(result)
    }

    fn relax(&mut self, graph: &EdgeWeightedDigraph, v: usize)
        requires
            graph.wf(),
            graph@ == old(self).graph@,
            old(self).inv_upto(v as int, 0),
        ensures
            final(self).inv_upto(-1, 0),
            final(self).graph@ == old(self).graph@,
            final(self).source == old(self).source,
            final(self).settled@ == old(self).settled@,
    {
        broadcast use vstd::std_specs::hash::group_hash_axioms;

        let bag = graph.edge_list(v);
        let n = bag.size();
        let mut j: usize = 0;
        while j < n
            invariant
                j <= n,
                n == graph@[v as int].len(),
                bag@ == graph@[v as int],
                graph@ == self.graph@,
                self.inv_upto(v as int, j as int),
                self.graph@ == old(self).graph@,
                self.source == old(self).source,
                self.settled@ == old(self).settled@,
            decreases n - j,
        {
            let e = *bag.item(j);
            assert(e == self.graph@[v as int][j as int]);
            assert(e.v == v && 0 <= e.w < self.graph@.len());
            let w = e.w as usize;
            let dv = self.dist_to[v];
            let nd = if dv > u64::MAX - e.cost {
                u64::MAX
            } else {
                dv + e.cost
            };
            let ghost prev = *self;
            if nd < self.dist_to[w] {
                assert(prev.queue_ok(w as int));
                assert(!self.settled@.contains(w as int));
                assert(w != self.source) by {
                    assert(self.dist_to@[self.source as int] == 0);
                }
                self.dist_to[w] = nd;
                let before = self.edge_to.insert(w as i32, e);
                if self.pq.contains(w) {
                    let r = self.pq.change(w, nd);
                } else {
                    let r = self.pq.insert(w, nd);
                }
                proof {
                    assert(self.graph@[v as int].contains(e));
                    assert forall|x: int| 0 <= x < self.graph@.len() && x != self.source implies #[trigger] self.tree_ok(
                        x,
                    ) by {
                        if x != w {
                            assert(prev.tree_ok(x));
                        }
                    }
                    assert forall|x: int| 0 <= x < self.graph@.len() implies #[trigger] self.queue_ok(
                        x,
                    ) by {
                        assert(prev.queue_ok(x));
                    }
                    assert forall|u: int, i: int|
                        self.settled@.contains(u) && 0 <= i < self.graph@[u].len() && (u != v || i < j
                            + 1) implies #[trigger] self.relaxed(u, i) by {
                        if u == v && i == j {
                        } else {
                            assert(prev.relaxed(u, i));
                        }
                    }
                }
            } else {
                proof {
                    assert forall|u: int, i: int|
                        self.settled@.contains(u) && 0 <= i < self.graph@[u].len() && (u != v || i < j
                            + 1) implies #[trigger] self.relaxed(u, i) by {
                        if u == v && i == j {
                        } else {
                            assert(prev.relaxed(u, i));
                        }
                    }
                }
            }
            j = j + 1;
        }
        proof {
            assert forall|u: int, i: int|
                self.settled@.contains(u) && 0 <= i < self.graph@[u].len() implies #[trigger] self.relaxed(
                u,
                i,
            ) by {}
        }
    }
}

/// The shortest path searches from every vertex of a graph.
pub struct DijkstraAllPairsSP {
    all: Vec<DijkstraSP>,
}

impl DijkstraAllPairsSP {
    /// The searches, the one from vertex `v` at position `v`.
    pub closed spec fn view(&self) -> Seq<DijkstraSP> {
        self.all@
    }

    /// The number of searches.
    pub fn size(&self) -> (n: usize)
        ensures
            n == self@.len(),
    {
        self.all.len()
    }

    /// The search from vertex `v`.
    pub fn search_from(&self, v: usize) -> (sp: &DijkstraSP)
        requires
            v < self@.len(),
        ensures
            *sp == self@[v as int],
    {
        &self.all[v]
    }

    /// Runs the search from every vertex of `graph`.
    pub fn get_all_pairs(graph: &EdgeWeightedDigraph) -> (r: Self)
        requires
            graph.wf(),
        ensures
            r@.len() == graph@.len(),
            forall|v: int|
                0 <= v < r@.len() ==> (#[trigger] r@[v]).wf() && r@[v].graph() == graph@ && r@[v].source()
                    == v,
    {
        let mut all: Vec<DijkstraSP> = Vec::new();
        let n = graph.get_v_count();
        let mut v: i32 = 0;
        while v < n
            invariant
                graph.wf(),
                n == graph@.len(),
                0 <= v <= n,
                all@.len() == v,
                forall|u: int|
                    0 <= u < v ==> (#[trigger] all@[u]).wf() && all@[u].graph() == graph@ && all@[u].source()
                        == u,
            decreases n - v,
        {
            let d = DijkstraSP::dijkstra(graph, v);
            all.push(d);
            v = v + 1;
        }
        DijkstraAllPairsSP { all }
    }
}

} // verus!
