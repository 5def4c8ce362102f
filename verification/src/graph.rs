use vstd::prelude::*;
use vstd::std_specs::cmp::PartialEqSpecImpl;
use crate::bag::Bag;
use crate::topology::Link;
use crate::topology::Network;

verus! {

/// A directed link of the network, from `v` to `w`.
///
/// Capacity and cost are non-negative amounts in the caller's fixed-point unit.
/// A copy keeps the cost it had when it was made.
#[derive(Debug, Clone, Copy)]
pub struct DirectedEdge {
    pub v: i32,
    pub w: i32,
    pub capacity: u32,
    pub cost: u64,
}

/// Two edges are the same link when they join the same two vertices in the same direction.
impl PartialEq for DirectedEdge {
    fn eq(&self, other: &Self) -> (r: bool) {
        self.v == other.v && self.w == other.w
    }
}

impl PartialEqSpecImpl for DirectedEdge {
    open spec fn obeys_eq_spec() -> bool {
        true
    }

    open spec fn eq_spec(&self, other: &Self) -> bool {
        self.v == other.v && self.w == other.w
    }
}

impl Eq for DirectedEdge {

}

/// `Hash::hash` of the standard library for `i32`: it feeds the number to the hasher.
/// Nothing is claimed of the state of the hasher afterwards.
pub assume_specification<H: core::hash::Hasher>[ <i32 as core::hash::Hash>::hash::<H> ](
    x: &i32,
    state: &mut H,
);

/// Edges that are the same link hash alike: only the two vertices are hashed.
impl core::hash::Hash for DirectedEdge {
    fn hash<H: core::hash::Hasher>(&self, state: &mut H) {
        self.v.hash(state);
        self.w.hash(state);
    }
}

/// Why a topology cannot be turned into a graph.
#[derive(Debug, Clone, Copy, PartialEq, Eq, Structural)]
pub enum StructuralError {
    /// There are `i32::MAX` vertices or more.
    TooManyVertices,
    /// There are more directed edges than an `i32` can count.
    TooManyEdges,
    /// A link names a vertex outside `0..node_count`.
    VertexOutOfRange,
}

/// The number of edges held by all the adjacency lists together.
pub open spec fn edge_total(adj: Seq<Seq<DirectedEdge>>) -> nat
    decreases adj.len(),
{
    if adj.len() == 0 {
        0
    } else {
        edge_total(adj.drop_last()) + adj.last().len()
    }
}

/// Every edge sits in the list of the vertex it leaves, and ends at a vertex of the graph.
pub open spec fn adjacency_ok(adj: Seq<Seq<DirectedEdge>>) -> bool {
    forall|v: int, j: int|
        0 <= v < adj.len() && 0 <= j < adj[v].len() ==> (#[trigger] adj[v][j]).v == v && 0
            <= adj[v][j].w < adj.len()
}

/// The adjacency lists with `e` put in front of the list of the vertex it leaves.
pub open spec fn with_edge(adj: Seq<Seq<DirectedEdge>>, e: DirectedEdge) -> Seq<Seq<DirectedEdge>> {
    adj.update(e.v as int, seq![e] + adj[e.v as int])
}

/// The edge that a link gives when it is walked from `source` to `target`.
pub open spec fn forward_edge(l: Link) -> DirectedEdge {
    DirectedEdge { v: l.source, w: l.target, capacity: l.capacity, cost: l.cost }
}

/// The edge that a link gives when it is walked from `target` to `source`.
pub open spec fn backward_edge(l: Link) -> DirectedEdge {
    DirectedEdge { v: l.target, w: l.source, capacity: l.capacity, cost: l.cost }
}

/// The adjacency lists of `n` vertices after the links have been added in order,
/// each as one edge, or as two when `both` directions are wanted.
pub open spec fn links_adjacency(n: nat, links: Seq<Link>, both: bool) -> Seq<Seq<DirectedEdge>>
    decreases links.len(),
{
    if links.len() == 0 {
        Seq::new(n, |i: int| Seq::<DirectedEdge>::empty())
    } else {
        let before = links_adjacency(n, links.drop_last(), both);
        let one = with_edge(before, forward_edge(links.last()));
        if both {
            with_edge(one, backward_edge(links.last()))
        } else {
            one
        }
    }
}

/// Whether both ends of every link are vertices of a graph of `n` vertices.
pub open spec fn links_in_range(n: nat, links: Seq<Link>) -> bool {
    forall|i: int|
        0 <= i < links.len() ==> 0 <= (#[trigger] links[i]).source < n && 0 <= links[i].target < n
}

/// The position of the first edge of `row` that ends at `w`, or the length of `row` if none does.
pub open spec fn first_to(row: Seq<DirectedEdge>, w: int) -> int
    decreases row.len(),
{
    if row.len() == 0 {
        0
    } else if row[0].w == w {
        0
    } else {
        1 + first_to(row.drop_first(), w)
    }
}

/// The adjacency lists after the first edge from `v` to `w`, if there is one, got the cost `cost`.
pub open spec fn with_cost(adj: Seq<Seq<DirectedEdge>>, v: int, w: int, cost: u64) -> Seq<
    Seq<DirectedEdge>,
> {
    if 0 <= v < adj.len() && first_to(adj[v], w) < adj[v].len() {
        let j = first_to(adj[v], w);
        adj.update(v, adj[v].update(j, DirectedEdge { cost: cost, ..adj[v][j] }))
    } else {
        adj
    }
}

/// What `first_to` finds: the first edge that ends at `w`, if there is one.
pub proof fn lemma_first_to(row: Seq<DirectedEdge>, w: int)
    ensures
        0 <= first_to(row, w) <= row.len(),
        first_to(row, w) < row.len() ==> row[first_to(row, w)].w == w,
        forall|j: int| 0 <= j < first_to(row, w) ==> (#[trigger] row[j]).w != w,
    decreases row.len(),
{
    if row.len() > 0 && row[0].w != w {
        let rest = row.drop_first();
        lemma_first_to(rest, w);
        assert forall|j: int| 0 <= j < first_to(row, w) implies (#[trigger] row[j]).w != w by {
            if j > 0 {
                assert(row[j] == rest[j - 1]);
            }
        }
    }
}

/// Where the first edge to `w` stands depends on the ends of the edges alone.
pub proof fn lemma_first_to_same_ends(a: Seq<DirectedEdge>, b: Seq<DirectedEdge>, w: int)
    requires
        a.len() == b.len(),
        forall|j: int| 0 <= j < a.len() ==> (#[trigger] a[j]).w == b[j].w,
    ensures
        first_to(a, w) == first_to(b, w),
    decreases a.len(),
{
    if a.len() > 0 {
        assert(a[0].w == b[0].w);
        if a[0].w != w {
            assert forall|j: int| 0 <= j < a.drop_first().len() implies (
            #[trigger] a.drop_first()[j]).w == b.drop_first()[j].w by {
                assert(a[j + 1].w == b[j + 1].w);
            }
            lemma_first_to_same_ends(a.drop_first(), b.drop_first(), w);
        }
    }
}

/// What `with_cost` changes: the cost of the first edge from `v` to `w`, and nothing
/// else.
pub proof fn lemma_with_cost_pointwise(
    adj: Seq<Seq<DirectedEdge>>,
    v: int,
    w: int,
    cost: u64,
    v2: int,
    j2: int,
)
    requires
        0 <= v2 < adj.len(),
        0 <= j2 < adj[v2].len(),
    ensures
        with_cost(adj, v, w, cost).len() == adj.len(),
        with_cost(adj, v, w, cost)[v2].len() == adj[v2].len(),
        with_cost(adj, v, w, cost)[v2][j2] == if v2 == v && j2 == first_to(adj[v], w) {
            DirectedEdge { cost: cost, ..adj[v2][j2] }
        } else {
            adj[v2][j2]
        },
{
    if 0 <= v < adj.len() {
        lemma_first_to(adj[v], w);
    }
}

proof fn lemma_edge_total_update(adj: Seq<Seq<DirectedEdge>>, v: int, row: Seq<DirectedEdge>)
    requires
        0 <= v < adj.len(),
    ensures
        edge_total(adj.update(v, row)) == edge_total(adj) - adj[v].len() + row.len(),
    decreases adj.len(),
{
    let after = adj.update(v, row);
    if v == adj.len() - 1 {
        assert(after.drop_last() =~= adj.drop_last());
    } else {
        lemma_edge_total_update(adj.drop_last(), v, row);
        assert(after.drop_last() =~= adj.drop_last().update(v, row));
    }
}

proof fn lemma_edge_total_empty(n: nat)
    ensures
        edge_total(Seq::new(n, |i: int| Seq::<DirectedEdge>::empty())) == 0,
    decreases n,
{
    if n > 0 {
        lemma_edge_total_empty((n - 1) as nat);
        assert(Seq::new(n, |i: int| Seq::<DirectedEdge>::empty()).drop_last() =~= Seq::new(
            (n - 1) as nat,
            |i: int| Seq::<DirectedEdge>::empty(),
        ));
    }
}

/// What `links_adjacency` builds from links that are in range: lists that are well formed,
/// with one edge per link, or two when both directions are wanted.
pub proof fn lemma_links_adjacency(n: nat, links: Seq<Link>, both: bool)
    requires
        links_in_range(n, links),
    ensures
        links_adjacency(n, links, both).len() == n,
        adjacency_ok(links_adjacency(n, links, both)),
        both ==> edge_total(links_adjacency(n, links, both)) == 2 * links.len(),
        !both ==> edge_total(links_adjacency(n, links, both)) == links.len(),
    decreases links.len(),
{
    if links.len() == 0 {
        lemma_edge_total_empty(n);
    } else {
        let l = links.last();
        let before = links_adjacency(n, links.drop_last(), both);
        lemma_links_adjacency(n, links.drop_last(), both);
        let f = forward_edge(l);
        let one = with_edge(before, f);
        lemma_edge_total_update(before, f.v as int, seq![f] + before[f.v as int]);
        if both {
            let b = backward_edge(l);
            lemma_edge_total_update(one, b.v as int, seq![b] + one[b.v as int]);
        }
    }
}

impl DirectedEdge {
    /// An edge from `from` to `to` without capacity or cost.
    pub fn get_empty_edge(from: i32, to: i32) -> (e: DirectedEdge)
        ensures
            e == (DirectedEdge { v: from, w: to, capacity: 0, cost: 0 }),
    {
        DirectedEdge { v: from, w: to, capacity: 0, cost: 0 }
    }

    /// The vertex the edge leaves.
    pub fn from(&self) -> (r: i32)
        ensures
            r == self.v,
    {
        self.v
    }

    /// The vertex the edge ends at.
    pub fn to(&self) -> (r: i32)
        ensures
            r == self.w,
    {
        self.w
    }

    /// The cost this copy of the edge holds.
    pub fn get_cost(&self) -> (r: u64)
        ensures
            r == self.cost,
    {
        self.cost
    }

    /// The capacity of the edge.
    pub fn get_capacity(&self) -> (r: u32)
        ensures
            r == self.capacity,
    {
        self.capacity
    }

    /// Replaces the cost of this copy of the edge.
    pub fn update_cost(&mut self, cost: u64)
        ensures
            *final(self) == (DirectedEdge { cost: cost, ..*old(self) }),
    {
        self.cost = cost;
    }
}

/// A directed graph on the vertices `0..V` whose edges carry a capacity and a cost.
///
/// The cost of an edge can be replaced in place; the set of edges never changes
/// once the graph is built.
#[derive(Debug)]
pub struct EdgeWeightedDigraph {
    v_count: i32,
    e_count: i32,
    adj: Vec<Bag<DirectedEdge>>,
}

/// The first failure met when a graph of `n` vertices is built from `links`, if any.
pub open spec fn build_failure(n: nat, links: Seq<Link>, both: bool) -> Option<StructuralError> {
    if n >= i32::MAX {
        Some(StructuralError::TooManyVertices)
    } else if (if both {
        2 * links.len()
    } else {
        links.len()
    }) > i32::MAX {
        Some(StructuralError::TooManyEdges)
    } else if !links_in_range(n, links) {
        Some(StructuralError::VertexOutOfRange)
    } else {
        None
    }
}

spec fn lists_of(bags: Seq<Bag<DirectedEdge>>) -> Seq<Seq<DirectedEdge>> {
    Seq::new(bags.len(), |i: int| bags[i]@)
}

fn all_links_in_range(n: usize, links: &Vec<Link>) -> (ok: bool)
    requires
        n <= i32::MAX,
    ensures
        ok == links_in_range(n as nat, links@),
{
    let mut k: usize = 0;
    while k < links.len()
        invariant
            k <= links.len(),
            n <= i32::MAX,
            links_in_range(n as nat, links@.take(k as int)),
        decreases links.len() - k,
    {
        let l = &links[k];
        if l.source < 0 || l.source as usize >= n || l.target < 0 || l.target as usize >= n {
            assert(!(0 <= links@[k as int].source < n && 0 <= links@[k as int].target < n));
            return false;
        }
        assert forall|i: int| 0 <= i < k + 1 implies 0 <= (#[trigger] links@.take(
            k + 1,
        )[i]).source < n && 0 <= links@.take(k + 1)[i].target < n by {
            if i < k {
                assert(links@.take(k + 1)[i] == links@.take(k as int)[i]);
            }
        }
        k = k + 1;
    }
    assert(links@.take(k as int) =~= links@);
    true
}

impl EdgeWeightedDigraph {
    /// The adjacency lists: for each vertex its outgoing edges, most recently added first.
    pub closed spec fn view(&self) -> Seq<Seq<DirectedEdge>> {
        lists_of(self.adj@)
    }

    /// The count of edges that the graph keeps.
    pub closed spec fn spec_e_count(&self) -> int {
        self.e_count as int
    }

    /// The count of vertices that the graph keeps.
    pub closed spec fn spec_v_count(&self) -> int {
        self.v_count as int
    }

    /// The counts agree with the adjacency lists, and every edge is where it belongs.
    pub open spec fn wf(&self) -> bool {
        &&& self.spec_v_count() == self@.len()
        &&& self@.len() < i32::MAX
        &&& self.spec_e_count() == edge_total(self@)
        &&& adjacency_ok(self@)
    }

    /// A graph without vertices.
    pub fn default_graph() -> (g: EdgeWeightedDigraph)
        ensures
            g.wf(),
            g@.len() == 0,
    {
        let g = EdgeWeightedDigraph { v_count: 0, e_count: 0, adj: Vec::new() };
        assert(g@ =~= Seq::<Seq<DirectedEdge>>::empty());
        g
    }

    /// Rebuilds the graph from the vertex count and the links of `network`: each link gives
    /// the edge from its source to its target and, when `both_directions` is set, the edge
    /// back as well. On failure the graph is left as it was.
    pub fn graph_from_links(&mut self, network: &Network, both_directions: bool) -> (r: Result<
        (),
        StructuralError,
    >)
        ensures
            match r {
                Ok(()) => {
                    &&& build_failure(network.node_count as nat, network.links@, both_directions)
                        is None
                    &&& final(self).wf()
                    &&& final(self)@ == links_adjacency(
                        network.node_count as nat,
                        network.links@,
                        both_directions,
                    )
                },
                Err(e) => {
                    &&& build_failure(network.node_count as nat, network.links@, both_directions)
                        == Some(e)
                    &&& *final(self) == *old(self)
                },
            },
    {
        let n = network.node_count;
        let links = &network.links;
        if n >= i32::MAX as usize {
            return Err(StructuralError::TooManyVertices);
        }
        let per_link: usize = if both_directions { 2 } else { 1 };
        if links.len() > i32::MAX as usize / per_link {
            return Err(StructuralError::TooManyEdges);
        }
        if !all_links_in_range(n, links) {
            return Err(StructuralError::VertexOutOfRange);
        }
        let mut adj: Vec<Bag<DirectedEdge>> = Vec::new();
        let mut i: usize = 0;
        while i < n
            invariant
                i <= n,
                adj@.len() == i,
                forall|j: int| 0 <= j < i ==> (#[trigger] adj@[j])@ == Seq::<DirectedEdge>::empty(),
            decreases n - i,
        {
            adj.push(Bag::get_empty_bag());
            i = i + 1;
        }
        assert(lists_of(adj@) =~= links_adjacency(n as nat, links@.take(0), both_directions));
        let mut k: usize = 0;
        while k < links.len()
            invariant
                k <= links.len(),
                n < i32::MAX,
                adj@.len() == n,
                links_in_range(n as nat, links@),
                lists_of(adj@) == links_adjacency(n as nat, links@.take(k as int), both_directions),
            decreases links.len() - k,
        {
            let l = links[k];
            let ghost before = lists_of(adj@);
            proof {
                assert(links@.take(k + 1).drop_last() =~= links@.take(k as int));
                assert(links@.take(k + 1).last() == l);
            }
            let f = DirectedEdge { v: l.source, w: l.target, capacity: l.capacity, cost: l.cost };
            adj[l.source as usize].add(f);
            assert(lists_of(adj@) =~= with_edge(before, f));
            if both_directions {
                let ghost one = lists_of(adj@);
                let b = DirectedEdge {
                    v: l.target,
                    w: l.source,
                    capacity: l.capacity,
                    cost: l.cost,
                };
                adj[l.target as usize].add(b);
                assert(lists_of(adj@) =~= with_edge(one, b));
            }
            k = k + 1;
        }
        proof {
            assert(links@.take(k as int) =~= links@);
            lemma_links_adjacency(n as nat, links@, both_directions);
        }
        self.v_count = n as i32;
        self.e_count = (links.len() * per_link) as i32;
        self.adj = adj;
        Ok(())
    }

    /// The number of vertices.
    pub fn get_v_count(&self) -> (r: i32)
        requires
            self.wf(),
        ensures
            r == self@.len(),
    {
        self.v_count
    }

    /// The number of edges.
    pub fn get_e_count(&self) -> (r: i32)
        requires
            self.wf(),
        ensures
            r == edge_total(self@),
    {
        self.e_count
    }

    /// The outgoing edges of vertex `v`.
    pub fn edge_list(&self, v: usize) -> (bag: &Bag<DirectedEdge>)
        requires
            self.wf(),
            v < self@.len(),
        ensures
            bag@ == self@[v as int],
    {
        &self.adj[v]
    }

    /// Gives the first edge from `v` to `w` the cost `cost`. Where the graph has no such
    /// edge, nothing changes.
    pub fn update_edge(&mut self, v: i32, w: i32, cost: u64)
        requires
            old(self).wf(),
        ensures
            final(self).wf(),
            final(self)@ == with_cost(old(self)@, v as int, w as int, cost),
    {
        if v < 0 || v >= self.v_count {
            return ;
        }
        let ghost row = self@[v as int];
        proof {
            lemma_first_to(row, w as int);
            assert forall|i: int| 0 <= i < row.len() implies (#[trigger] row[i]).v == v by {
                assert(self@[v as int][i].v == v);
            }
        }
        let n = self.adj[v as usize].size();
        let mut j: usize = 0;
        while j < n
            invariant
                j <= n,
                n == row.len(),
                0 <= v < self.adj@.len(),
                self.adj@[v as int]@ == row,
                forall|i: int| 0 <= i < row.len() ==> (#[trigger] row[i]).v == v,
                forall|i: int| 0 <= i < j ==> (#[trigger] row[i]).w != w,
            ensures
                j < n ==> row[j as int].w == w,
            decreases n - j,
        {
            let e = self.adj[v as usize].item(j);
            if e.v == v && e.w == w {
                break ;
            }
            j = j + 1;
        }
        if j < n {
            assert(first_to(row, w as int) == j);
            let ghost before = self@;
            let slot = self.adj[v as usize].item_mut(j);
            slot.cost = cost;
            proof {
                let changed = row.update(j as int, DirectedEdge { cost: cost, ..row[j as int] });
                assert(self@ =~= before.update(v as int, changed));
                lemma_edge_total_update(before, v as int, changed);
            }
        } else {
            assert(first_to(row, w as int) == row.len());
        }
    }
}

} // verus!
