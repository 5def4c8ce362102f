use vstd::prelude::*;
use crate::delay_func_count::lemma_product_bound;
use crate::delay_func_count::MAX_AMOUNT;
use crate::dijkstra_find_path::DijkstraSP;
use crate::dijkstra_find_path::UNREACHED;
use crate::dijkstra_find_path::fresh;
use crate::dijkstra_find_path::is_reverse_path;
use crate::dijkstra_find_path::is_shortest_distance;
use crate::dijkstra_find_path::is_simple_path;
use crate::dijkstra_find_path::path_cost;
use crate::graph::DirectedEdge;
use crate::graph::EdgeWeightedDigraph;
use crate::graph::StructuralError;
use crate::graph::build_failure;
use crate::graph::lemma_first_to;
use crate::graph::links_adjacency;
use crate::graph::with_cost;
use crate::projection_method::LedgerRow;
use crate::projection_method::ProjectionMethod;
use crate::projection_method::graph_refreshed;
use crate::projection_method::ledger_x;
use crate::projection_method::lemma_rows_by_key;
use crate::projection_method::row_total_x;
use crate::projection_method::row_total_y;
use crate::projection_method::rows_by_key;
use crate::projection_method::rows_put;
use crate::projection_method::totals_x;
use crate::projection_method::totals_y;
use crate::projection_method::lemma_row_position;
use crate::projection_method::row_position;
use crate::utils_graph::CommodityFlow;
use crate::utils_graph::entry_position;
use crate::utils_graph::flows_with;
use crate::utils_graph::sum_x;
use crate::utils_graph::sum_y;
use crate::projection_method::lemma_no_path_no_load;
use crate::projection_method::lemma_put_path_pointwise;
use crate::projection_method::lemma_refreshed_pointwise;
use crate::projection_method::lemma_update_edge_flow;
use crate::projection_method::lemma_without_y_pointwise;
use crate::projection_method::on_some_path;
use crate::projection_method::passes;
use crate::projection_method::path_first_derivative;
use crate::projection_method::path_load;
use crate::projection_method::path_second_derivative;
use crate::projection_method::path_views;
use crate::projection_method::rows_cleared;
use crate::projection_method::rows_loaded;
use crate::projection_method::rows_put_path;
use crate::projection_method::rows_refreshed;
use crate::projection_method::rows_well_formed;
use crate::projection_method::rows_without_y;
use crate::projection_method::total_delay_x;
use crate::topology::Demand;
use crate::topology::Network;
use crate::utils_graph::capped;
use crate::utils_graph::symmetric_difference;
use crate::utils_graph::symmetric_difference_of;

verus! {

/// The flow of a path after one projection step: the flow `x` moved against the
/// difference between the first derivative `d_q` along the path and the first derivative
/// `d_s` along the shortest path, by `alpha` thousandths of that difference over the
/// curvature `h`, and kept between zero and `u64::MAX`. Where the curvature is zero the
/// path loses all its flow if it is the dearer one and keeps it otherwise.
pub open spec fn projected(x: u64, alpha: u32, d_q: u64, d_s: u64, h: u64) -> u64 {
    if h == 0 {
        if d_q > d_s {
            0
        } else {
            x
        }
    } else if d_q >= d_s {
        let step = (alpha * (d_q - d_s)) / (1000 * h);
        if step >= x {
            0
        } else {
            (x - step) as u64
        }
    } else {
        let step = (alpha * (d_s - d_q)) / (1000 * h);
        capped((x + step) as nat)
    }
}

/// The flow of a path after one projection step.
pub fn projected_flow(x: u64, alpha: u32, d_q: u64, d_s: u64, h: u64) -> (r: u64)
    ensures
        r == projected(x, alpha, d_q, d_s, h),
{
    if h == 0 {
        return if d_q > d_s {
            0
        } else {
            x
        };
    }
    proof {
        lemma_product_bound(
            alpha as int,
            if d_q >= d_s {
                d_q - d_s
            } else {
                d_s - d_q
            },
            0xFFFF_FFFF,
            0xFFFF_FFFF_FFFF_FFFF,
        );
    }
    let scale = 1000 * (h as u128);
    if d_q >= d_s {
        let step = ((alpha as u128) * ((d_q - d_s) as u128)) / scale;
        if step >= x as u128 {
            0
        } else {
            (x as u128 - step) as u64
        }
    } else {
        let step = ((alpha as u128) * ((d_s - d_q) as u128)) / scale;
        let moved = x as u128 + step;
        if moved > u64::MAX as u128 {
            u64::MAX
        } else {
            moved as u64
        }
    }
}

/// The sum of the first `n` flows.
pub open spec fn sum_flows(flows: Seq<u64>, n: int) -> nat
    decreases n,
{
    if n <= 0 {
        0
    } else {
        sum_flows(flows, n - 1) + flows[n - 1] as nat
    }
}

/// The sum over the first `n` edges of the first derivative times the difference between
/// the routed flow and the shortest-path flow.
pub open spec fn gap_sum(grad: Seq<u64>, x: Seq<u64>, y: Seq<u64>, n: int) -> int
    decreases n,
{
    if n <= 0 {
        0
    } else {
        gap_sum(grad, x, y, n - 1) + grad[n - 1] * (x[n - 1] - y[n - 1])
    }
}

/// Whether each of the first `n` amounts is one the delay is computed for.
pub open spec fn amounts_in_range(x: Seq<u64>, n: int) -> bool {
    forall|i: int| 0 <= i < n ==> #[trigger] x[i] <= MAX_AMOUNT
}

/// The bound that the stopping rule draws from one state: the total delay `phi` plus, for
/// every edge, the first derivative of the delay times the difference between the routed
/// flow and the shortest-path flow; never below zero, capped at `u64::MAX`. Nothing is
/// concluded, and the bound is zero, where the three sequences differ in length, hold
/// more than `i32::MAX` edges, or hold a flow above `MAX_AMOUNT`.
pub open spec fn lower_bound_candidate(phi: u64, grad: Seq<u64>, x: Seq<u64>, y: Seq<u64>) -> u64 {
    let n = grad.len() as int;
    if x.len() != n || y.len() != n || n > i32::MAX || !amounts_in_range(x, n) || !amounts_in_range(
        y,
        n,
    ) {
        0
    } else {
        let value = phi + gap_sum(grad, x, y, n);
        if value < 0 {
            0
        } else {
            capped(value as nat)
        }
    }
}

/// The bound that the stopping rule draws from the state of the ledger `rows` with the
/// total delay `phi`: the edges are taken in the ascending order of their keys.
pub open spec fn state_bound(rows: Seq<LedgerRow>, phi: u64, p: int) -> u64 {
    let sorted = crate::projection_method::rows_by_key(rows, rows.len() as int);
    lower_bound_candidate(
        phi,
        crate::projection_method::gradient_of(sorted, rows.len() as int, p),
        crate::projection_method::totals_x(sorted, rows.len() as int),
        crate::projection_method::totals_y(sorted, rows.len() as int),
    )
}

/// Whether the total delay `phi` exceeds the bound by no more than `eps` millionths of
/// the bound.
pub open spec fn within_gap(phi: u64, lower_bound: u64, eps: u32) -> bool {
    phi * 1000000 <= (1000000 + eps) * lower_bound
}

fn all_in_range(x: &Vec<u64>) -> (ok: bool)
    ensures
        ok == amounts_in_range(x@, x@.len() as int),
{
    let mut i: usize = 0;
    while i < x.len()
        invariant
            i <= x@.len(),
            amounts_in_range(x@, i as int),
        decreases x@.len() - i,
    {
        if x[i] > MAX_AMOUNT {
            return false;
        }
        i = i + 1;
    }
    true
}

/// The bound that the stopping rule draws from the total delay `phi` under the routed
/// flows `x`, its first derivatives `grad` by the flow of each edge, and the
/// shortest-path flows `y`.
pub fn lower_bound(phi: u64, grad: &Vec<u64>, x: &Vec<u64>, y: &Vec<u64>) -> (r: u64)
    ensures
        r == lower_bound_candidate(phi, grad@, x@, y@),
{
    let n = grad.len();
    if x.len() != n || y.len() != n || n > i32::MAX as usize {
        return 0;
    }
    if !all_in_range(x) || !all_in_range(y) {
        return 0;
    }
    let mut sum: i128 = 0;
    let mut i: usize = 0;
    while i < n
        invariant
            i <= n,
            n <= i32::MAX,
            grad@.len() == n,
            x@.len() == n,
            y@.len() == n,
            amounts_in_range(x@, n as int),
            amounts_in_range(y@, n as int),
            sum == gap_sum(grad@, x@, y@, i as int),
            -(i * 79228162495817593515539431425) <= sum <= i * 79228162495817593515539431425,
        decreases n - i,
    {
        let g = grad[i] as i128;
        let a = x[i] as i128;
        let b = y[i] as i128;
        proof {
            if a >= b {
                lemma_product_bound(g as int, a - b, 0xFFFF_FFFF_FFFF_FFFF, 0xFFFF_FFFF);
            } else {
                lemma_product_bound(g as int, b - a, 0xFFFF_FFFF_FFFF_FFFF, 0xFFFF_FFFF);
                assert(g * (a - b) == -(g * (b - a))) by (nonlinear_arith);
            }
        }
        let term = g * (a - b);
        sum = sum + term;
        i = i + 1;
    }
    let value = phi as i128 + sum;
    if value < 0 {
        0
    } else if value > u64::MAX as i128 {
        u64::MAX
    } else {
        value as u64
    }
}

/// Whether the total delay `phi` exceeds the bound by no more than `eps` millionths of
/// the bound: the test that ends the optimisation.
pub fn is_within_gap(phi: u64, lower_bound: u64, eps: u32) -> (b: bool)
    ensures
        b == within_gap(phi, lower_bound, eps),
{
    proof {
        lemma_product_bound(1000000 + eps, lower_bound as int, 4295967295, 0xFFFF_FFFF_FFFF_FFFF);
    }
    (phi as u128) * 1000000 <= (1000000 + eps as u128) * (lower_bound as u128)
}

/// Whether two adjacency lists hold the same edges but for their costs.
pub open spec fn same_links(a: Seq<Seq<DirectedEdge>>, b: Seq<Seq<DirectedEdge>>) -> bool {
    &&& a.len() == b.len()
    &&& forall|v: int| 0 <= v < a.len() ==> (#[trigger] a[v]).len() == b[v].len()
    &&& forall|v: int, j: int|
        0 <= v < a.len() && 0 <= j < a[v].len() ==> (#[trigger] a[v][j]).v == b[v][j].v && a[v][j].w
            == b[v][j].w && a[v][j].capacity == b[v][j].capacity
}

/// Whether the adjacency lists hold an edge from `v` to `w`.
pub open spec fn has_link(adj: Seq<Seq<DirectedEdge>>, v: int, w: int) -> bool {
    0 <= v < adj.len() && exists|j: int| 0 <= j < adj[v].len() && (#[trigger] adj[v][j]).w == w
}

/// Whether `path` lists, last edge first, the edges of a walk from `s` to `t` along links
/// of the adjacency lists, whatever the costs.
pub open spec fn is_route(adj: Seq<Seq<DirectedEdge>>, path: Seq<DirectedEdge>, s: int, t: int) -> bool
    decreases path.len(),
{
    if path.len() == 0 {
        s == t
    } else {
        &&& has_link(adj, path[0].v as int, path[0].w as int)
        &&& path[0].w == t
        &&& is_route(adj, path.drop_first(), s, path[0].v as int)
    }
}

/// Whether two paths pass the same vertices in the same order.
pub open spec fn same_path(p: Seq<DirectedEdge>, q: Seq<DirectedEdge>) -> bool {
    &&& p.len() == q.len()
    &&& forall|i: int| 0 <= i < p.len() ==> (#[trigger] p[i]).v == q[i].v && p[i].w == q[i].w
}

/// Changing the cost of an edge leaves the links as they are.
pub proof fn lemma_with_cost_same_links(adj: Seq<Seq<DirectedEdge>>, v: int, w: int, cost: u64)
    ensures
        same_links(adj, with_cost(adj, v, w, cost)),
{
    if 0 <= v < adj.len() {
        lemma_first_to(adj[v], w);
    }
}

/// Having the same links is transitive.
pub proof fn lemma_same_links_trans(
    a: Seq<Seq<DirectedEdge>>,
    b: Seq<Seq<DirectedEdge>>,
    c: Seq<Seq<DirectedEdge>>,
)
    requires
        same_links(a, b),
        same_links(b, c),
    ensures
        same_links(a, c),
{
    assert forall|v: int, j: int| 0 <= v < a.len() && 0 <= j < a[v].len() implies (
    #[trigger] a[v][j]).v == c[v][j].v && a[v][j].w == c[v][j].w && a[v][j].capacity
        == c[v][j].capacity by {
        assert(a[v].len() == b[v].len());
        assert(a[v][j].v == b[v][j].v);
        assert(b[v][j].v == c[v][j].v);
    }
    assert forall|v: int| 0 <= v < a.len() implies (#[trigger] a[v]).len() == c[v].len() by {
        assert(a[v].len() == b[v].len());
        assert(b[v].len() == c[v].len());
    }
}

/// Refreshing the costs leaves the links as they are.
pub proof fn lemma_refreshed_same_links(adj: Seq<Seq<DirectedEdge>>, rows: Seq<LedgerRow>, n: int, p: int)
    ensures
        same_links(adj, graph_refreshed(adj, rows, n, p)),
    decreases n,
{
    if n > 0 {
        let before = graph_refreshed(adj, rows, n - 1, p);
        lemma_refreshed_same_links(adj, rows, n - 1, p);
        lemma_with_cost_same_links(
            before,
            rows[n - 1].edge.v as int,
            rows[n - 1].edge.w as int,
            crate::projection_method::refreshed_cost(rows[n - 1], p),
        );
        lemma_same_links_trans(adj, before, graph_refreshed(adj, rows, n, p));
    }
}

/// A walk in adjacency lists is a route in any lists with the same links.
pub proof fn lemma_path_is_route(
    adj: Seq<Seq<DirectedEdge>>,
    links: Seq<Seq<DirectedEdge>>,
    path: Seq<DirectedEdge>,
    s: int,
    t: int,
)
    requires
        same_links(adj, links),
        is_reverse_path(adj, path, s, t),
    ensures
        is_route(links, path, s, t),
    decreases path.len(),
{
    if path.len() > 0 {
        let e = path[0];
        lemma_path_is_route(adj, links, path.drop_first(), s, e.v as int);
        let j = choose|j: int| 0 <= j < adj[e.v as int].len() && adj[e.v as int][j] == e;
        assert(adj[e.v as int].len() == links[e.v as int].len());
        assert(adj[e.v as int][j].w == links[e.v as int][j].w);
        assert(has_link(links, e.v as int, e.w as int));
    }
}

/// Why no routing was computed.
#[derive(Debug, Clone, Copy, PartialEq, Eq, Structural)]
pub enum RoutingError {
    /// The threshold of the delay model is not strictly between 0 and 1000.
    InvalidThreshold,
    /// The topology is no graph.
    Topology(StructuralError),
    /// There are more commodities than an `i32` can index.
    TooManyCommodities,
    /// The commodity with this index starts or ends at what is no vertex.
    DemandOutOfRange(usize),
    /// No path of representable cost leads from the source of the commodity with this
    /// index to its target.
    NoPath(usize),
}

/// How the search for a better routing of one commodity ended.
#[derive(Debug, Clone, Copy, PartialEq, Eq, Structural)]
pub enum InnerStop {
    /// The shortest path is the one the commodity used last.
    Settled,
    /// The projection left nothing for the shortest path; the flows stay as they were.
    Degenerate,
    /// The allowed number of projection steps was taken.
    StepLimit,
}

/// How the optimisation ended.
#[derive(Debug, Clone, Copy, PartialEq, Eq, Structural)]
pub enum Stop {
    /// The total delay is within the tolerance of the bound.
    Converged,
    /// The allowed number of passes was made without reaching the tolerance.
    PassLimit,
}

/// How one commodity is routed: the paths found for it so far, each listed last edge
/// first, the flow on each, and which of them was the shortest path when last looked at.
#[derive(Debug)]
pub struct CommodityRouting {
    pub source: i32,
    pub target: i32,
    pub demand: u64,
    pub paths: Vec<Vec<DirectedEdge>>,
    pub flows: Vec<u64>,
    pub incumbent: usize,
}

/// Whether a routing is sound on the links `links`: every path leads from the source to
/// the target, no path is listed twice, and the flows of the paths add up to the demand.
pub open spec fn routing_ok(links: Seq<Seq<DirectedEdge>>, c: CommodityRouting) -> bool {
    &&& 0 <= c.source < links.len()
    &&& 0 <= c.target < links.len()
    &&& c.paths@.len() == c.flows@.len()
    &&& c.incumbent < c.paths@.len()
    &&& sum_flows(c.flows@, c.flows@.len() as int) == c.demand
    &&& forall|i: int|
        0 <= i < c.paths@.len() ==> is_route(
            links,
            (#[trigger] c.paths@[i])@,
            c.source as int,
            c.target as int,
        )
    &&& forall|i: int, j: int|
        0 <= i < j < c.paths@.len() ==> !same_path((#[trigger] c.paths@[i])@, (#[trigger] c.paths@[j])@)
}

/// Whether both ends of each of the first `n` demands are vertices of a graph of
/// `vertices` vertices.
pub open spec fn demands_in_range(vertices: nat, demands: Seq<Demand>, n: int) -> bool {
    forall|k: int|
        0 <= k < n ==> 0 <= (#[trigger] demands[k]).source < vertices && 0 <= demands[k].target
            < vertices
}

/// The flow-deviation optimiser: the graph with its current costs, the ledger of the
/// flows, and the routing of every commodity.
pub struct FlowDeviation {
    graph: EdgeWeightedDigraph,
    method: ProjectionMethod,
    commodities: Vec<CommodityRouting>,
    lower_bound: u64,
    links: Ghost<Seq<Seq<DirectedEdge>>>,
}

fn copy_path(path: &Vec<DirectedEdge>) -> (r: Vec<DirectedEdge>)
    ensures
        r@ == path@,
{
    let mut r: Vec<DirectedEdge> = Vec::new();
    let mut i: usize = 0;
    while i < path.len()
        invariant
            i <= path@.len(),
            r@ == path@.take(i as int),
        decreases path@.len() - i,
    {
        r.push(path[i]);
        assert(r@ =~= path@.take(i + 1));
        i = i + 1;
    }
    assert(path@.take(i as int) =~= path@);
    r
}

fn first_demand_out_of_range(vertices: usize, demands: &Vec<Demand>) -> (k: usize)
    ensures
        k <= demands@.len(),
        demands_in_range(vertices as nat, demands@, k as int),
        k < demands@.len() ==> !(0 <= demands@[k as int].source < vertices && 0
            <= demands@[k as int].target < vertices),
{
    let mut k: usize = 0;
    while k < demands.len()
        invariant
            k <= demands@.len(),
            demands_in_range(vertices as nat, demands@, k as int),
        decreases demands@.len() - k,
    {
        let d = &demands[k];
        if d.source < 0 || d.source as usize >= vertices || d.target < 0 || d.target as usize
            >= vertices {
            return k;
        }
        k = k + 1;
    }
    k
}

impl FlowDeviation {
    /// The links of the graph as they were built, with the costs of the topology.
    pub closed spec fn links(&self) -> Seq<Seq<DirectedEdge>> {
        self.links@
    }

    /// The adjacency lists of the graph with the costs of the moment.
    pub closed spec fn graph(&self) -> Seq<Seq<DirectedEdge>> {
        self.graph@
    }

    /// The rows of the ledger.
    pub closed spec fn ledger(&self) -> Seq<LedgerRow> {
        self.method@
    }

    /// The step size in thousandths.
    pub closed spec fn alpha(&self) -> u32 {
        self.method.spec_alpha()
    }

    /// The threshold of the delay model in thousandths of the capacity.
    pub closed spec fn threshold(&self) -> u16 {
        self.method.spec_p()
    }

    /// The routing of every commodity.
    pub closed spec fn routings(&self) -> Seq<CommodityRouting> {
        self.commodities@
    }

    /// The largest bound that the stopping rule has drawn from the states so far.
    pub closed spec fn bound(&self) -> u64 {
        self.lower_bound
    }

    /// The graph has the links it was built with, the ledger is well formed, every
    /// commodity is routed soundly, and the ledger holds for every commodity what its paths
    /// send over each edge.
    pub closed spec fn wf(&self) -> bool {
        &&& self.graph.wf()
        &&& self.method.wf()
        &&& same_links(self.graph@, self.links@)
        &&& self.commodities@.len() <= i32::MAX
        &&& forall|k: int|
            0 <= k < self.commodities@.len() ==> routing_ok(self.links@, #[trigger] self.commodities@[k])
        &&& forall|k: int|
            0 <= k < self.commodities@.len() ==> ledger_matches(
                self.method@,
                k,
                #[trigger] self.commodities@[k],
            )
    }

    /// What a sound optimiser promises of every commodity: its routing is sound, so that
    /// the flows of its paths add up to its demand, and the ledger holds on every edge
    /// what its paths send over the edge. The graph has the links it was built with.
    pub proof fn lemma_routings_ok(&self, k: int)
        requires
            self.wf(),
            0 <= k < self.routings().len(),
        ensures
            routing_ok(self.links(), self.routings()[k]),
            ledger_matches(self.ledger(), k, self.routings()[k]),
            rows_well_formed(self.ledger()),
            0 < self.threshold() < 1000,
            same_links(self.graph(), self.links()),
    {
    }

    /// Builds the graph of `network` with every link in both directions, and puts the
    /// whole demand of every commodity, one after the other, on a shortest path under
    /// the costs that the flows placed before entail.
    pub fn new(network: &Network, alpha: u32, p: u16) -> (r: Result<FlowDeviation, RoutingError>)
        ensures
            match r {
                Ok(fd) => {
                    &&& 0 < p < 1000
                    &&& build_failure(network.node_count as nat, network.links@, true) is None
                    &&& network.demands@.len() <= i32::MAX
                    &&& demands_in_range(
                        network.node_count as nat,
                        network.demands@,
                        network.demands@.len() as int,
                    )
                    &&& fd.wf()
                    &&& fd.alpha() == alpha
                    &&& fd.threshold() == p
                    &&& fd.bound() == 0
                    &&& fd.links() == links_adjacency(
                        network.node_count as nat,
                        network.links@,
                        true,
                    )
                    &&& fd.routings().len() == network.demands@.len()
                    &&& forall|k: int|
                        0 <= k < fd.routings().len() ==> {
                            let c = #[trigger] fd.routings()[k];
                            let d = network.demands@[k];
                            &&& c.source == d.source
                            &&& c.target == d.target
                            &&& c.demand == d.demand_value
                            &&& c.paths@.len() == 1
                            &&& c.flows@ == seq![d.demand_value]
                            &&& c.incumbent == 0
                        }
                    &&& placed_all(
                        first_state(
                            links_adjacency(network.node_count as nat, network.links@, true),
                            alpha,
                            p as int,
                        ),
                        fd.state(),
                        network.demands@,
                        network.demands@.len(),
                    )
                },
                Err(RoutingError::InvalidThreshold) => !(0 < p < 1000),
                Err(RoutingError::Topology(e)) => {
                    &&& 0 < p < 1000
                    &&& build_failure(network.node_count as nat, network.links@, true) == Some(e)
                },
                Err(RoutingError::TooManyCommodities) => {
                    &&& 0 < p < 1000
                    &&& build_failure(network.node_count as nat, network.links@, true) is None
                    &&& network.demands@.len() > i32::MAX
                },
                Err(RoutingError::DemandOutOfRange(k)) => {
                    &&& 0 < p < 1000
                    &&& build_failure(network.node_count as nat, network.links@, true) is None
                    &&& network.demands@.len() <= i32::MAX
                    &&& k < network.demands@.len()
                    &&& demands_in_range(network.node_count as nat, network.demands@, k as int)
                    &&& !(0 <= network.demands@[k as int].source < network.node_count && 0
                        <= network.demands@[k as int].target < network.node_count)
                },
                Err(RoutingError::NoPath(k)) => {
                    &&& 0 < p < 1000
                    &&& build_failure(network.node_count as nat, network.links@, true) is None
                    &&& network.demands@.len() <= i32::MAX
                    &&& demands_in_range(
                        network.node_count as nat,
                        network.demands@,
                        network.demands@.len() as int,
                    )
                    &&& k < network.demands@.len()
                    &&& exists|mid: StateView|
                        {
                            &&& #[trigger] placed_all(
                                first_state(
                                    links_adjacency(
                                        network.node_count as nat,
                                        network.links@,
                                        true,
                                    ),
                                    alpha,
                                    p as int,
                                ),
                                mid,
                                network.demands@,
                                k as nat,
                            )
                            &&& is_shortest_distance(
                                mid.adj,
                                network.demands@[k as int].source as int,
                                network.demands@[k as int].target as int,
                                UNREACHED,
                            )
                        }
                },
            },
    {
        let method = ProjectionMethod::new(alpha, p);
        let mut method = match method {
            Some(m) => m,
            None => {
                return Err(RoutingError::InvalidThreshold);
            },
        };
        let mut graph = EdgeWeightedDigraph::default_graph();
        match graph.graph_from_links(network, true) {
            Ok(()) => {},
            Err(e) => {
                return Err(RoutingError::Topology(e));
            },
        }
        let ghost links = graph@;
        let demands = &network.demands;
        if demands.len() > i32::MAX as usize {
            return Err(RoutingError::TooManyCommodities);
        }
        let bad = first_demand_out_of_range(network.node_count, demands);
        if bad < demands.len() {
            return Err(RoutingError::DemandOutOfRange(bad));
        }
        let mut commodities: Vec<CommodityRouting> = Vec::new();
        let mut k: usize = 0;
        let ghost start = first_state(links, alpha, p as int);
        proof {
            lemma_refreshed_same_links(links, Seq::empty(), 0, p as int);
            crate::graph::lemma_links_adjacency(network.node_count as nat, network.links@, true);
            assert(state_from(graph@, method@, commodities@, 0, alpha, p as int).routings
                =~= start.routings);
            assert(method@ =~= start.rows);
        }
        while k < demands.len()
            invariant
                k <= demands@.len(),
                start == first_state(links, alpha, p as int),
                placed_all(
                    start,
                    state_from(graph@, method@, commodities@, 0, alpha, p as int),
                    demands@,
                    k as nat,
                ),
                demands@.len() <= i32::MAX,
                0 < p < 1000,
                build_failure(network.node_count as nat, network.links@, true) is None,
                demands == &network.demands,
                links == links_adjacency(network.node_count as nat, network.links@, true),
                demands_in_range(network.node_count as nat, demands@, demands@.len() as int),
                graph.wf(),
                graph@.len() == network.node_count,
                method.wf(),
                method.spec_alpha() == alpha,
                method.spec_p() == p,
                same_links(graph@, links),
                commodities@.len() == k,
                forall|i: int| 0 <= i < k ==> routing_ok(links, #[trigger] commodities@[i]),
                forall|i: int| 0 <= i < k ==> ledger_matches(method@, i, #[trigger] commodities@[i]),
                forall|i: int, v: int, w: int| i >= k ==> #[trigger] ledger_x(method@, v, w, i) == 0,
                forall|i: int|
                    0 <= i < k ==> {
                        let c = #[trigger] commodities@[i];
                        let d = demands@[i];
                        &&& c.source == d.source
                        &&& c.target == d.target
                        &&& c.demand == d.demand_value
                        &&& c.paths@.len() == 1
                        &&& c.flows@ == seq![d.demand_value]
                        &&& c.incumbent == 0
                    },
            decreases demands@.len() - k,
        {
            let d = demands[k];
            let sp = DijkstraSP::dijkstra(&graph, d.source);
            let ghost from = state_from(graph@, method@, commodities@, 0, alpha, p as int);
            let path = match sp.path_to(d.target as usize) {
                Some(path) => path,
                None => {
                    proof {
                        assert(sp.dist(d.target as int) == UNREACHED);
                        assert(is_shortest_distance(
                            from.adj,
                            demands@[k as int].source as int,
                            demands@[k as int].target as int,
                            UNREACHED,
                        ));
                        assert(placed_all(
                            first_state(
                                links_adjacency(network.node_count as nat, network.links@, true),
                                alpha,
                                p as int,
                            ),
                            from,
                            network.demands@,
                            k as nat,
                        ));
                    }
                    return Err(RoutingError::NoPath(k));
                },
            };
            let ghost s = path@;
            proof {
                lemma_path_is_route(graph@, links, path@, d.source as int, d.target as int);
                assert(sp.dist(d.target as int) == path_cost(s));
                assert(is_shortest_path(from.adj, s, d.source as int, d.target as int));
            }
            let ghost before = graph@;
            let ghost rows0 = method@;
            let ghost rows = rows_put_path(
                method@,
                path@,
                path@.len() as int,
                k as int,
                Some(d.demand_value),
                Some(d.demand_value),
            );
            method.set_first_commodity_to_graph(k as i32, d.demand_value, &path, &mut graph);
            proof {
                lemma_refreshed_same_links(before, rows, rows.len() as int, p as int);
                lemma_same_links_flip(before, links);
                lemma_same_links_flip(before, graph@);
                lemma_same_links_trans(graph@, before, links);
                assert forall|i: int, v: int, w: int| #[trigger]
                    ledger_x(method@, v, w, i) == if i == k && passes(
                        path@,
                        path@.len() as int,
                        v,
                        w,
                    ) > 0 {
                        d.demand_value
                    } else {
                        ledger_x(rows0, v, w, i)
                    } by {
                    lemma_put_path_pointwise(
                        rows0,
                        path@,
                        path@.len() as int,
                        k as i32,
                        Some(d.demand_value),
                        Some(d.demand_value),
                        v,
                        w,
                        i,
                    );
                    lemma_refreshed_pointwise(rows, rows.len() as int, p as int, v, w, i);
                }
            }
            let mut paths: Vec<Vec<DirectedEdge>> = Vec::new();
            paths.push(path);
            let mut flows: Vec<u64> = Vec::new();
            flows.push(d.demand_value);
            let c = CommodityRouting {
                source: d.source,
                target: d.target,
                demand: d.demand_value,
                paths,
                flows,
                incumbent: 0,
            };
            proof {
                assert(sum_flows(c.flows@, 0) == 0);
                assert(sum_flows(c.flows@, 1) == d.demand_value);
                let views = path_views(c.paths@);
                assert forall|v: int, w: int| #[trigger]
                    ledger_x(method@, v, w, k as int) == capped(
                        path_load(views, c.flows@, 1, v, w),
                    ) by {
                    lemma_fresh_passes_once(
                        path@,
                        set![d.source as int],
                        path@.len() as int,
                        v,
                        w,
                    );
                    assert(views[0] == path@);
                    assert(path_load(views, c.flows@, 0, v, w) == 0);
                    let times = passes(path@, path@.len() as int, v, w);
                    assert(d.demand_value as nat * times == if times == 1 {
                        d.demand_value as nat
                    } else {
                        0nat
                    }) by (nonlinear_arith)
                        requires
                            times <= 1,
                    ;
                }
                assert forall|i: int| 0 <= i < k implies ledger_matches(
                    method@,
                    i,
                    #[trigger] commodities@[i],
                ) by {
                    let ci = commodities@[i];
                    assert(ledger_matches(rows0, i, ci));
                    assert forall|v: int, w: int| #[trigger]
                        ledger_x(method@, v, w, i) == capped(
                            path_load(path_views(ci.paths@), ci.flows@, ci.paths@.len() as int, v, w),
                        ) by {
                        assert(ledger_x(method@, v, w, i) == ledger_x(rows0, v, w, i));
                    }
                }
            }
            commodities.push(c);
            proof {
                let to = state_from(graph@, method@, commodities@, 0, alpha, p as int);
                let placed = placed_one(from, demands@[k as int], s);
                assert(to.routings =~= placed.routings) by {
                    assert(path_views(commodities@[k as int].paths@) =~= seq![s]);
                }
                assert(to == placed);
                assert(placed_all(start, from, demands@, ((k + 1) - 1) as nat) && is_shortest_path(
                    from.adj,
                    s,
                    demands@[(k + 1) - 1].source as int,
                    demands@[(k + 1) - 1].target as int,
                ) && to == placed_one(from, demands@[(k + 1) - 1], s));
                assert(placed_all(start, to, demands@, (k + 1) as nat));
            }
            k = k + 1;
        }
        Ok(FlowDeviation { graph, method, commodities, lower_bound: 0, links: Ghost(links) })
    }
}

/// Whether `longer` begins with the paths of `shorter`, in their order.
pub open spec fn starts_with(longer: Seq<Seq<DirectedEdge>>, shorter: Seq<Seq<DirectedEdge>>) -> bool {
    &&& shorter.len() <= longer.len()
    &&& forall|i: int| 0 <= i < shorter.len() ==> longer[i] == #[trigger] shorter[i]
}

/// Keeping the paths carries over from one state to the next.
pub proof fn lemma_keeps_paths(first: &FlowDeviation, second: &FlowDeviation, third: &FlowDeviation)
    requires
        second.keeps_paths_of(first),
        third.keeps_paths_of(second),
    ensures
        third.keeps_paths_of(first),
{
    assert forall|k: int| 0 <= k < first.routings().len() implies starts_with(
        third.paths_of(k),
        #[trigger] first.paths_of(k),
    ) by {
        let a = first.paths_of(k);
        let b = second.paths_of(k);
        let c = third.paths_of(k);
        assert(starts_with(b, a));
        assert(starts_with(c, b));
        assert forall|i: int| 0 <= i < a.len() implies c[i] == #[trigger] a[i] by {
            assert(b[i] == a[i]);
            assert(c[i] == b[i]);
        }
    }
}

/// Having the same links goes both ways.
pub proof fn lemma_same_links_flip(a: Seq<Seq<DirectedEdge>>, b: Seq<Seq<DirectedEdge>>)
    requires
        same_links(a, b),
    ensures
        same_links(b, a),
{
    assert forall|v: int, j: int| 0 <= v < b.len() && 0 <= j < b[v].len() implies (
    #[trigger] b[v][j]).v == a[v][j].v && b[v][j].w == a[v][j].w && b[v][j].capacity
        == a[v][j].capacity by {
        assert(a[v].len() == b[v].len());
        assert(a[v][j].v == b[v][j].v);
    }
    assert forall|v: int| 0 <= v < b.len() implies (#[trigger] b[v]).len() == a[v].len() by {
        assert(a[v].len() == b[v].len());
    }
}

/// The position of the first of `paths` that passes the same vertices as `s`, or the
/// number of paths if none does.
pub open spec fn path_position(paths: Seq<Seq<DirectedEdge>>, s: Seq<DirectedEdge>) -> int
    decreases paths.len(),
{
    if paths.len() == 0 {
        0
    } else if same_path(paths[0], s) {
        0
    } else {
        1 + path_position(paths.drop_first(), s)
    }
}

/// What `path_position` finds: the first path that passes the same vertices, if there is
/// one.
pub proof fn lemma_path_position(paths: Seq<Seq<DirectedEdge>>, s: Seq<DirectedEdge>)
    ensures
        0 <= path_position(paths, s) <= paths.len(),
        path_position(paths, s) < paths.len() ==> same_path(paths[path_position(paths, s)], s),
        forall|j: int| 0 <= j < path_position(paths, s) ==> !same_path(#[trigger] paths[j], s),
    decreases paths.len(),
{
    if paths.len() > 0 && !same_path(paths[0], s) {
        let rest = paths.drop_first();
        lemma_path_position(rest, s);
        assert forall|j: int| 0 <= j < path_position(paths, s) implies !same_path(
            #[trigger] paths[j],
            s,
        ) by {
            if j > 0 {
                assert(paths[j] == rest[j - 1]);
            }
        }
    }
}

/// The paths with `s` among them: as they are if one of them passes the same vertices,
/// and with `s` at the end otherwise.
pub open spec fn paths_with(paths: Seq<Seq<DirectedEdge>>, s: Seq<DirectedEdge>) -> Seq<
    Seq<DirectedEdge>,
> {
    if path_position(paths, s) < paths.len() {
        paths
    } else {
        paths.push(s)
    }
}

/// The flows of the paths with `s` among them; a path that is new carries nothing.
pub open spec fn flows_with_path(paths: Seq<Seq<DirectedEdge>>, flows: Seq<u64>, s: Seq<DirectedEdge>) -> Seq<
    u64,
> {
    if path_position(paths, s) < paths.len() {
        flows
    } else {
        flows.push(0)
    }
}

/// The ledger after the shortest-path flow of commodity `k` was taken off every edge and
/// the demand put on the edges of its shortest path `s`.
pub open spec fn rows_with_shortest(rows: Seq<LedgerRow>, s: Seq<DirectedEdge>, k: int, demand: u64) -> Seq<
    LedgerRow,
> {
    rows_put_path(
        rows_without_y(rows, rows.len() as int, k),
        s,
        s.len() as int,
        k,
        None,
        Some(demand),
    )
}

/// The flow that one projection step leaves on `path`, which carried `flow`, when `s` is
/// the shortest path and `d_s` the first derivative along it: the curvature is taken over
/// the edges that only one of the two paths has.
pub open spec fn moved_flow(
    rows: Seq<LedgerRow>,
    path: Seq<DirectedEdge>,
    flow: u64,
    s: Seq<DirectedEdge>,
    d_s: u64,
    k: int,
    alpha: u32,
    p: int,
) -> u64 {
    let d_q = capped(path_first_derivative(rows, path, path.len() as int, p));
    let apart = symmetric_difference_of(path, s);
    let h = capped(path_second_derivative(rows, apart, apart.len() as int, k, p));
    projected(flow, alpha, d_q, d_s, h)
}

/// The flows that one projection step leaves on the first `n` paths, with nothing yet on
/// the path at position `j`, which is the shortest.
pub open spec fn moved_flows(
    rows: Seq<LedgerRow>,
    paths: Seq<Seq<DirectedEdge>>,
    flows: Seq<u64>,
    j: int,
    s: Seq<DirectedEdge>,
    d_s: u64,
    k: int,
    alpha: u32,
    p: int,
    n: int,
) -> Seq<u64> {
    Seq::new(
        n as nat,
        |q: int|
            if q == j {
                0
            } else {
                moved_flow(rows, paths[q], flows[q], s, d_s, k, alpha, p)
            },
    )
}

/// Replacing one flow changes the sum by the difference.
pub proof fn lemma_sum_flows_update(flows: Seq<u64>, n: int, j: int, v: u64)
    requires
        0 <= j < n <= flows.len(),
    ensures
        sum_flows(flows.update(j, v), n) == sum_flows(flows, n) - flows[j] + v,
    decreases n,
{
    if j < n - 1 {
        lemma_sum_flows_update(flows, n - 1, j, v);
    } else {
        lemma_sum_flows_same(flows, flows.update(j, v), n - 1);
    }
}

/// Sequences that agree on their first `n` flows have the same sum over them.
pub proof fn lemma_sum_flows_same(a: Seq<u64>, b: Seq<u64>, n: int)
    requires
        n <= a.len(),
        n <= b.len(),
        forall|i: int| 0 <= i < n ==> a[i] == b[i],
    ensures
        sum_flows(a, n) == sum_flows(b, n),
    decreases n,
{
    if n > 0 {
        lemma_sum_flows_same(a, b, n - 1);
    }
}

fn find_path(paths: &Vec<Vec<DirectedEdge>>, s: &Vec<DirectedEdge>) -> (j: usize)
    ensures
        j == path_position(path_views(paths@), s@),
        j <= paths@.len(),
{
    let mut j: usize = 0;
    proof {
        lemma_path_position(path_views(paths@), s@);
    }
    while j < paths.len()
        invariant
            j <= paths@.len(),
            forall|i: int| 0 <= i < j ==> !same_path(#[trigger] path_views(paths@)[i], s@),
            0 <= path_position(path_views(paths@), s@) <= paths@.len(),
            path_position(path_views(paths@), s@) < paths@.len() ==> same_path(
                path_views(paths@)[path_position(path_views(paths@), s@)],
                s@,
            ),
            forall|i: int|
                0 <= i < path_position(path_views(paths@), s@) ==> !same_path(
                    #[trigger] path_views(paths@)[i],
                    s@,
                ),
        ensures
            j == path_position(path_views(paths@), s@),
            j <= paths@.len(),
        decreases paths@.len() - j,
    {
        if is_same_path(&paths[j], s) {
            assert(same_path(path_views(paths@)[j as int], s@));
            break ;
        }
        assert(!same_path(path_views(paths@)[j as int], s@));
        j = j + 1;
    }
    j
}

/// Whether two paths pass the same vertices in the same order.
pub fn is_same_path(p: &Vec<DirectedEdge>, q: &Vec<DirectedEdge>) -> (b: bool)
    ensures
        b == same_path(p@, q@),
{
    if p.len() != q.len() {
        return false;
    }
    let mut i: usize = 0;
    while i < p.len()
        invariant
            i <= p@.len(),
            p@.len() == q@.len(),
            forall|j: int| 0 <= j < i ==> (#[trigger] p@[j]).v == q@[j].v && p@[j].w == q@[j].w,
        decreases p@.len() - i,
    {
        if p[i].v != q[i].v || p[i].w != q[i].w {
            assert(!((#[trigger] p@[i as int]).v == q@[i as int].v && p@[i as int].w == q@[i as int].w));
            return false;
        }
        i = i + 1;
    }
    true
}

/// The flows that one projection step computes for the paths other than the shortest path
/// `s`, with nothing at the place of `s`.
pub open spec fn step_moved(
    rows: Seq<LedgerRow>,
    paths: Seq<Seq<DirectedEdge>>,
    flows: Seq<u64>,
    s: Seq<DirectedEdge>,
    k: int,
    demand: u64,
    alpha: u32,
    p: int,
) -> Seq<u64> {
    let paths1 = paths_with(paths, s);
    moved_flows(
        rows_with_shortest(rows, s, k, demand),
        paths1,
        flows_with_path(paths, flows, s),
        path_position(paths, s),
        s,
        capped(path_first_derivative(rows, s, s.len() as int, p)),
        k,
        alpha,
        p,
        paths1.len() as int,
    )
}

/// Whether one projection step leaves flow for the shortest path `s`, so that the new
/// flows are taken.
pub open spec fn step_commits(
    rows: Seq<LedgerRow>,
    paths: Seq<Seq<DirectedEdge>>,
    flows: Seq<u64>,
    s: Seq<DirectedEdge>,
    k: int,
    demand: u64,
    alpha: u32,
    p: int,
) -> bool {
    let moved = step_moved(rows, paths, flows, s, k, demand, alpha, p);
    sum_flows(moved, moved.len() as int) < demand
}

/// The flows of the paths after one projection step: the shortest path `s` gets what the
/// other paths leave of the demand. Where they leave nothing, the flows stay as they
/// were.
pub open spec fn step_flows(
    rows: Seq<LedgerRow>,
    paths: Seq<Seq<DirectedEdge>>,
    flows: Seq<u64>,
    s: Seq<DirectedEdge>,
    k: int,
    demand: u64,
    alpha: u32,
    p: int,
) -> Seq<u64> {
    let moved = step_moved(rows, paths, flows, s, k, demand, alpha, p);
    if step_commits(rows, paths, flows, s, k, demand, alpha, p) {
        moved.update(
            path_position(paths, s),
            (demand - sum_flows(moved, moved.len() as int)) as u64,
        )
    } else {
        flows_with_path(paths, flows, s)
    }
}

/// The ledger with the flows of one projection step written into it, before the costs are
/// refreshed.
pub open spec fn step_loaded(
    rows: Seq<LedgerRow>,
    paths: Seq<Seq<DirectedEdge>>,
    flows: Seq<u64>,
    s: Seq<DirectedEdge>,
    k: int,
    demand: u64,
    alpha: u32,
    p: int,
) -> Seq<LedgerRow> {
    let paths1 = paths_with(paths, s);
    let rows1 = rows_with_shortest(rows, s, k, demand);
    rows_loaded(
        rows_cleared(rows1, paths1, paths1.len() as int, k),
        paths1,
        step_flows(rows, paths, flows, s, k, demand, alpha, p),
        paths1.len() as int,
        k,
    )
}

/// The ledger after one projection step.
pub open spec fn step_rows(
    rows: Seq<LedgerRow>,
    paths: Seq<Seq<DirectedEdge>>,
    flows: Seq<u64>,
    s: Seq<DirectedEdge>,
    k: int,
    demand: u64,
    alpha: u32,
    p: int,
) -> Seq<LedgerRow> {
    if step_commits(rows, paths, flows, s, k, demand, alpha, p) {
        let loaded = step_loaded(rows, paths, flows, s, k, demand, alpha, p);
        rows_refreshed(loaded, loaded.len() as int, p)
    } else {
        rows_with_shortest(rows, s, k, demand)
    }
}

/// The adjacency lists after one projection step.
pub open spec fn step_graph(
    adj: Seq<Seq<DirectedEdge>>,
    rows: Seq<LedgerRow>,
    paths: Seq<Seq<DirectedEdge>>,
    flows: Seq<u64>,
    s: Seq<DirectedEdge>,
    k: int,
    demand: u64,
    alpha: u32,
    p: int,
) -> Seq<Seq<DirectedEdge>> {
    if step_commits(rows, paths, flows, s, k, demand, alpha, p) {
        let loaded = step_loaded(rows, paths, flows, s, k, demand, alpha, p);
        graph_refreshed(adj, loaded, loaded.len() as int, p)
    } else {
        adj
    }
}

/// One projection step for the commodity `k` routed as `c`, with `path_s` its shortest
/// path under the costs of the moment: the shortest path joins the paths of the
/// commodity, flow moves from the other paths towards it, and ledger and graph follow.
/// Returns whether the new flows were taken.
pub fn project_commodity(
    c: &mut CommodityRouting,
    method: &mut ProjectionMethod,
    graph: &mut EdgeWeightedDigraph,
    k: i32,
    path_s: &Vec<DirectedEdge>,
) -> (committed: bool)
    requires
        old(method).wf(),
        old(graph).wf(),
        old(c).paths@.len() == old(c).flows@.len(),
    ensures
        final(method).wf(),
        final(graph).wf(),
        final(method).spec_alpha() == old(method).spec_alpha(),
        final(method).spec_p() == old(method).spec_p(),
        final(c).source == old(c).source,
        final(c).target == old(c).target,
        final(c).demand == old(c).demand,
        ({
            let rows = old(method)@;
            let paths = path_views(old(c).paths@);
            let flows = old(c).flows@;
            let alpha = old(method).spec_alpha();
            let p = old(method).spec_p() as int;
            let d = old(c).demand;
            &&& committed == step_commits(rows, paths, flows, path_s@, k as int, d, alpha, p)
            &&& path_views(final(c).paths@) == paths_with(paths, path_s@)
            &&& final(c).flows@ == step_flows(rows, paths, flows, path_s@, k as int, d, alpha, p)
            &&& final(c).incumbent as int == if committed {
                path_position(paths, path_s@)
            } else {
                old(c).incumbent as int
            }
            &&& final(method)@ == step_rows(rows, paths, flows, path_s@, k as int, d, alpha, p)
            &&& final(graph)@ == step_graph(
                old(graph)@,
                rows,
                paths,
                flows,
                path_s@,
                k as int,
                d,
                alpha,
                p,
            )
        }),
{
    let ghost rows0 = method@;
    let ghost paths0 = path_views(c.paths@);
    let ghost flows0 = c.flows@;
    let alpha = method.get_alpha();
    let ghost p = method.spec_p() as int;
    let demand = c.demand;
    let d_s = method.get_d_k_p(&k, path_s);
    method.clear_flow_y(k);
    method.update_edge_flow_y(k, demand, path_s);
    let ghost rows1 = method@;
    let j = find_path(&c.paths, path_s);
    if j == c.paths.len() {
        c.paths.push(copy_path(path_s));
        c.flows.push(0);
    }
    let ghost paths1 = path_views(c.paths@);
    let ghost flows1 = c.flows@;
    proof {
        assert(paths1 =~= paths_with(paths0, path_s@));
        assert(flows1 =~= flows_with_path(paths0, flows0, path_s@));
    }
    let n = c.paths.len();
    let mut moved: Vec<u64> = Vec::new();
    let mut others: u64 = 0;
    let mut q: usize = 0;
    while q < n
        invariant
            q <= n,
            n == c.paths@.len(),
            n == c.flows@.len(),
            j < n,
            method.wf(),
            method@ == rows1,
            method.spec_alpha() == alpha,
            method.spec_p() == p,
            paths1 == path_views(c.paths@),
            flows1 == c.flows@,
            moved@ == moved_flows(rows1, paths1, flows1, j as int, path_s@, d_s, k as int, alpha, p, q as int),
            others == capped(sum_flows(moved@, q as int)),
        decreases n - q,
    {
        let ghost before = moved@;
        if q == j {
            moved.push(0);
        } else {
            let d_q = method.get_d_k_p(&k, &c.paths[q]);
            let apart = symmetric_difference(copy_path(&c.paths[q]), copy_path(path_s));
            let h = method.get_h_k_p(&k, &apart);
            let f = projected_flow(c.flows[q], alpha, d_q, d_s, h);
            assert(paths1[q as int] == c.paths@[q as int]@);
            moved.push(f);
            others = others.saturating_add(f);
        }
        proof {
            assert(moved@ =~= moved_flows(
                rows1,
                paths1,
                flows1,
                j as int,
                path_s@,
                d_s,
                k as int,
                alpha,
                p,
                q + 1,
            ));
            lemma_sum_flows_same(before, moved@, q as int);
        }
        q = q + 1;
    }
    if others < demand {
        let ghost sum = sum_flows(moved@, n as int);
        let ghost draft = moved@;
        moved[j] = demand - others;
        proof {
            assert(moved@ =~= draft.update(j as int, (demand - sum) as u64));
        }
        method.update_edge_flow(&moved, k, graph, &c.paths);
        c.flows = moved;
        c.incumbent = j;
        true
    } else {
        false
    }
}

/// The routing of one commodity with its paths as sequences of edges.
pub ghost struct RoutingView {
    pub source: i32,
    pub target: i32,
    pub demand: u64,
    pub paths: Seq<Seq<DirectedEdge>>,
    pub flows: Seq<u64>,
    pub incumbent: int,
}

/// The routing `c` with its paths as sequences of edges.
pub open spec fn routing_view(c: CommodityRouting) -> RoutingView {
    RoutingView {
        source: c.source,
        target: c.target,
        demand: c.demand,
        paths: path_views(c.paths@),
        flows: c.flows@,
        incumbent: c.incumbent as int,
    }
}

/// All that an optimiser holds: the adjacency lists with the costs of the moment, the
/// rows of the ledger, the routing of every commodity, the bound of the stopping rule,
/// and the two parameters.
pub ghost struct StateView {
    pub adj: Seq<Seq<DirectedEdge>>,
    pub rows: Seq<LedgerRow>,
    pub routings: Seq<RoutingView>,
    pub bound: u64,
    pub alpha: u32,
    pub p: int,
}

/// Whether `s` is a shortest path from `source` to `target` under the costs of `adj`, and
/// one that passes no vertex twice.
pub open spec fn is_shortest_path(adj: Seq<Seq<DirectedEdge>>, s: Seq<DirectedEdge>, source: int, target: int) -> bool {
    &&& is_simple_path(adj, s, source, target)
    &&& path_cost(s) < UNREACHED
    &&& is_shortest_distance(adj, source, target, path_cost(s) as u64)
}

/// Whether some shortest path from the source to the target of the routing `c`, under
/// the costs of `adj`, is the path that the commodity used last (`used_last` set) or is
/// another path than that one (`used_last` not set).
pub open spec fn has_shortest_path(adj: Seq<Seq<DirectedEdge>>, c: RoutingView, used_last: bool) -> bool {
    exists|path: Seq<DirectedEdge>|
        {
            &&& #[trigger] is_shortest_path(adj, path, c.source as int, c.target as int)
            &&& same_path(path, c.paths[c.incumbent]) == used_last
        }
}

/// The state made up of its parts.
pub open spec fn state_from(
    adj: Seq<Seq<DirectedEdge>>,
    rows: Seq<LedgerRow>,
    routings: Seq<CommodityRouting>,
    bound: u64,
    alpha: u32,
    p: int,
) -> StateView {
    StateView {
        adj: adj,
        rows: rows,
        routings: Seq::new(routings.len(), |k: int| routing_view(routings[k])),
        bound: bound,
        alpha: alpha,
        p: p,
    }
}

/// The state of an optimiser that has built its graph and routed nothing yet.
pub open spec fn first_state(adj: Seq<Seq<DirectedEdge>>, alpha: u32, p: int) -> StateView {
    StateView { adj: adj, rows: Seq::empty(), routings: Seq::empty(), bound: 0, alpha: alpha, p: p }
}

/// The state after the next commodity, with the demand `d`, was placed on the path `s` in
/// the state `a`: the whole demand is the routed flow and the shortest-path flow of the
/// commodity on the edges of `s`, every edge of the ledger has the cost that its routed
/// flow entails, and `s` is the one path of the commodity.
pub open spec fn placed_one(a: StateView, d: Demand, s: Seq<DirectedEdge>) -> StateView {
    let recorded = rows_put_path(
        a.rows,
        s,
        s.len() as int,
        a.routings.len() as int,
        Some(d.demand_value),
        Some(d.demand_value),
    );
    StateView {
        adj: graph_refreshed(a.adj, recorded, recorded.len() as int, a.p),
        rows: rows_refreshed(recorded, recorded.len() as int, a.p),
        routings: a.routings.push(
            RoutingView {
                source: d.source,
                target: d.target,
                demand: d.demand_value,
                paths: seq![s],
                flows: seq![d.demand_value],
                incumbent: 0,
            },
        ),
        ..a
    }
}

/// Whether the state `b` follows from the state `start` when the first `m` demands are
/// placed one after the other, each on a shortest path under the costs of its moment.
pub open spec fn placed_all(start: StateView, b: StateView, demands: Seq<Demand>, m: nat) -> bool
    decreases m,
{
    if m == 0 {
        b == start
    } else {
        exists|mid: StateView, s: Seq<DirectedEdge>|
            #![trigger placed_one(mid, demands[m - 1], s)]
            placed_all(start, mid, demands, (m - 1) as nat) && is_shortest_path(
                mid.adj,
                s,
                demands[m - 1].source as int,
                demands[m - 1].target as int,
            ) && b == placed_one(mid, demands[m - 1], s)
    }
}

/// Whether commodity `k` may take a projection step along `s` in the state `a`: `s` is a
/// shortest path of the commodity under the costs of the moment, and another path than
/// the one it used last.
pub open spec fn may_step(a: StateView, k: int, s: Seq<DirectedEdge>) -> bool {
    &&& is_shortest_path(a.adj, s, a.routings[k].source as int, a.routings[k].target as int)
    &&& !same_path(s, a.routings[k].paths[a.routings[k].incumbent])
}

/// Whether the projection step of commodity `k` along `s` in the state `a` leaves flow
/// for `s`, so that its flows are taken.
pub open spec fn step_taken(a: StateView, k: int, s: Seq<DirectedEdge>) -> bool {
    step_commits(
        a.rows,
        a.routings[k].paths,
        a.routings[k].flows,
        s,
        k,
        a.routings[k].demand,
        a.alpha,
        a.p,
    )
}

/// The state after the projection step of commodity `k` along `s` in the state `a`.
pub open spec fn stepped(a: StateView, k: int, s: Seq<DirectedEdge>) -> StateView {
    let c = a.routings[k];
    StateView {
        adj: step_graph(a.adj, a.rows, c.paths, c.flows, s, k, c.demand, a.alpha, a.p),
        rows: step_rows(a.rows, c.paths, c.flows, s, k, c.demand, a.alpha, a.p),
        routings: a.routings.update(
            k,
            RoutingView {
                paths: paths_with(c.paths, s),
                flows: step_flows(a.rows, c.paths, c.flows, s, k, c.demand, a.alpha, a.p),
                incumbent: if step_taken(a, k, s) {
                    path_position(c.paths, s)
                } else {
                    c.incumbent
                },
                ..c
            },
        ),
        ..a
    }
}

/// Whether the state `b` follows from the state `a` by `n` projection steps of commodity
/// `k`, each along a shortest path of its moment that is not the path used last, and each
/// of them taken.
pub open spec fn reached_by_steps(a: StateView, b: StateView, k: int, n: nat) -> bool
    decreases n,
{
    if n == 0 {
        b == a
    } else {
        exists|mid: StateView, s: Seq<DirectedEdge>|
            #![trigger stepped(mid, k, s)]
            reached_by_steps(a, mid, k, (n - 1) as nat) && may_step(mid, k, s) && step_taken(
                mid,
                k,
                s,
            ) && b == stepped(mid, k, s)
    }
}

/// Whether the state `b` follows from the state `a` by at most `most` such steps.
pub open spec fn reached_within(a: StateView, b: StateView, k: int, most: int) -> bool {
    exists|n: nat| n <= most && #[trigger] reached_by_steps(a, b, k, n)
}

/// Whether the search for a better routing of commodity `k`, with at most `max_steps`
/// steps, can lead from the state `a` to the state `b` and end as `r`. It is `Settled`
/// after steps that were all taken, when a shortest path of the moment is the path used
/// last; `StepLimit` after `max_steps` steps that were all taken, when a shortest path is
/// still another one; `Degenerate` after a step that was not taken; and it fails after
/// steps that were all taken when nothing leads to the target.
pub open spec fn route_outcome(
    a: StateView,
    b: StateView,
    k: int,
    max_steps: u32,
    r: Result<InnerStop, RoutingError>,
) -> bool {
    match r {
        Ok(InnerStop::Settled) => reached_within(a, b, k, max_steps as int) && has_shortest_path(
            b.adj,
            b.routings[k],
            true,
        ),
        Ok(InnerStop::StepLimit) => reached_by_steps(a, b, k, max_steps as nat)
            && has_shortest_path(b.adj, b.routings[k], false),
        Ok(InnerStop::Degenerate) => exists|mid: StateView, s: Seq<DirectedEdge>|
            #![trigger stepped(mid, k, s)]
            reached_within(a, mid, k, max_steps - 1) && may_step(mid, k, s) && !step_taken(
                mid,
                k,
                s,
            ) && b == stepped(mid, k, s),
        Err(e) => e == RoutingError::NoPath(k as usize) && reached_within(
            a,
            b,
            k,
            max_steps as int,
        ) && is_shortest_distance(
            b.adj,
            b.routings[k].source as int,
            b.routings[k].target as int,
            UNREACHED,
        ),
    }
}

/// Whether the state `b` follows from the state `a` when the first `m` commodities, one
/// after the other, look for a better routing with at most `max_steps` steps each, and
/// none of these searches fails.
pub open spec fn routed_in_turn(a: StateView, b: StateView, m: nat, max_steps: u32) -> bool
    decreases m,
{
    if m == 0 {
        b == a
    } else {
        exists|mid: StateView, r: InnerStop|
            #![trigger route_outcome(mid, b, m - 1, max_steps, Ok(r))]
            routed_in_turn(a, mid, (m - 1) as nat, max_steps) && route_outcome(
                mid,
                b,
                m - 1,
                max_steps,
                Ok(r),
            )
    }
}

/// The total delay under the routed flows of the rows, capped at `u64::MAX`.
pub open spec fn delay_of(rows: Seq<LedgerRow>, p: int) -> u64 {
    capped(total_delay_x(rows, rows.len() as int, p))
}

/// The bound after a pass that began in the state `a`: the larger of the bound so far
/// and the bound that the stopping rule draws from `a`.
pub open spec fn raised_bound(a: StateView) -> u64 {
    let candidate = state_bound(a.rows, delay_of(a.rows, a.p), a.p);
    if candidate > a.bound {
        candidate
    } else {
        a.bound
    }
}

/// Whether one pass with the tolerance `eps` and at most `max_steps` steps for each
/// commodity can lead from the state `a` to the state `b` and end as `r`. A pass that
/// succeeds has routed every commodity in turn and then raised the bound, and it tells
/// whether the total delay is within the tolerance of the bound. A pass that fails has
/// routed the commodities in front of the one that it names, and for that one nothing
/// leads to the target.
pub open spec fn pass_outcome(
    a: StateView,
    b: StateView,
    eps: u32,
    max_steps: u32,
    r: Result<bool, RoutingError>,
) -> bool {
    match r {
        Ok(done) => exists|mid: StateView|
            {
                &&& #[trigger] routed_in_turn(a, mid, a.routings.len(), max_steps)
                &&& b == (StateView { bound: raised_bound(a), ..mid })
                &&& done == within_gap(delay_of(b.rows, b.p), b.bound, eps)
            },
        Err(e) => exists|k: nat, mid: StateView|
            {
                &&& k < a.routings.len()
                &&& #[trigger] routed_in_turn(a, mid, k, max_steps)
                &&& route_outcome(mid, b, k as int, max_steps, Err(e))
            },
    }
}

/// Whether the state `b` follows from the state `a` by `n` passes of which none found
/// the total delay within the tolerance of the bound.
pub open spec fn passes_made(a: StateView, b: StateView, n: nat, eps: u32, max_steps: u32) -> bool
    decreases n,
{
    if n == 0 {
        b == a
    } else {
        exists|mid: StateView|
            #![trigger pass_outcome(mid, b, eps, max_steps, Ok(false))]
            passes_made(a, mid, (n - 1) as nat, eps, max_steps) && pass_outcome(
                mid,
                b,
                eps,
                max_steps,
                Ok(false),
            )
    }
}

/// Whether a run of at most `max_passes` passes can lead from the state `a` to the state
/// `b` and end as `r`. It ends as `Converged` with the first pass that finds the total
/// delay within the tolerance of the bound, as `PassLimit` after `max_passes` passes of
/// which none found that, and it fails with the first pass that fails.
pub open spec fn run_outcome(
    a: StateView,
    b: StateView,
    eps: u32,
    max_passes: u32,
    max_steps: u32,
    r: Result<Stop, RoutingError>,
) -> bool {
    match r {
        Ok(Stop::PassLimit) => passes_made(a, b, max_passes as nat, eps, max_steps),
        Ok(Stop::Converged) => exists|n: nat, mid: StateView|
            {
                &&& n < max_passes
                &&& #[trigger] passes_made(a, mid, n, eps, max_steps)
                &&& pass_outcome(mid, b, eps, max_steps, Ok(true))
            },
        Err(e) => exists|n: nat, mid: StateView|
            {
                &&& n < max_passes
                &&& #[trigger] passes_made(a, mid, n, eps, max_steps)
                &&& pass_outcome(mid, b, eps, max_steps, Err(e))
            },
    }
}

/// Whether the ledger holds for commodity `k`, on every edge, what the paths of its
/// routing `c` send over the edge: each path its flow.
pub open spec fn ledger_matches(rows: Seq<LedgerRow>, k: int, c: CommodityRouting) -> bool {
    forall|v: int, w: int| #[trigger]
        ledger_x(rows, v, w, k) == capped(
            path_load(path_views(c.paths@), c.flows@, c.paths@.len() as int, v, w),
        )
}

/// A path that enters no vertex twice passes no edge twice.
pub proof fn lemma_fresh_passes_once(path: Seq<DirectedEdge>, banned: Set<int>, n: int, v: int, w: int)
    requires
        fresh(path, banned),
        0 <= n <= path.len(),
    ensures
        passes(path, n, v, w) <= 1,
        passes(path, n, v, w) == 1 ==> exists|j: int| 0 <= j < n && (#[trigger] path[j]).w == w,
    decreases n,
{
    if n > 0 {
        lemma_fresh_passes_once(path, banned, n - 1, v, w);
        if path[n - 1].v == v && path[n - 1].w == w {
            if passes(path, n - 1, v, w) == 1 {
                let j = choose|j: int| 0 <= j < n - 1 && (#[trigger] path[j]).w == w;
                assert(path[j].w != path[n - 1].w);
            }
        } else if passes(path, n - 1, v, w) == 1 {
            let j = choose|j: int| 0 <= j < n - 1 && (#[trigger] path[j]).w == w;
            assert(0 <= j < n && path[j].w == w);
        }
    }
}

proof fn lemma_load_prefix(
    paths: Seq<Seq<DirectedEdge>>,
    flows: Seq<u64>,
    longer: Seq<Seq<DirectedEdge>>,
    longer_flows: Seq<u64>,
    m: int,
    v: int,
    w: int,
)
    requires
        0 <= m <= paths.len(),
        m <= flows.len(),
        m <= longer.len(),
        m <= longer_flows.len(),
        forall|i: int| 0 <= i < m ==> #[trigger] longer[i] == paths[i],
        forall|i: int| 0 <= i < m ==> #[trigger] longer_flows[i] == flows[i],
    ensures
        path_load(longer, longer_flows, m, v, w) == path_load(paths, flows, m, v, w),
        on_some_path(longer, m, v, w) == on_some_path(paths, m, v, w),
    decreases m,
{
    if m > 0 {
        lemma_load_prefix(paths, flows, longer, longer_flows, m - 1, v, w);
        assert(longer[m - 1] == paths[m - 1]);
        assert(longer_flows[m - 1] == flows[m - 1]);
    }
}

/// One projection step keeps the ledger in step with the paths of the commodity and
/// leaves the routed flows of every other commodity as they are.
pub proof fn lemma_step_keeps_ledger(
    rows: Seq<LedgerRow>,
    before: CommodityRouting,
    after: CommodityRouting,
    s: Seq<DirectedEdge>,
    k: i32,
    alpha: u32,
    p: int,
    k2: int,
)
    requires
        rows_well_formed(rows),
        before.paths@.len() == before.flows@.len(),
        ledger_matches(rows, k as int, before),
        path_views(after.paths@) == paths_with(path_views(before.paths@), s),
        after.flows@ == step_flows(
            rows,
            path_views(before.paths@),
            before.flows@,
            s,
            k as int,
            before.demand,
            alpha,
            p,
        ),
    ensures
        rows_well_formed(
            step_rows(rows, path_views(before.paths@), before.flows@, s, k as int, before.demand, alpha, p),
        ),
        ledger_matches(
            step_rows(rows, path_views(before.paths@), before.flows@, s, k as int, before.demand, alpha, p),
            k as int,
            after,
        ),
        k2 != k ==> forall|v: int, w: int| #[trigger]
            ledger_x(
                step_rows(
                    rows,
                    path_views(before.paths@),
                    before.flows@,
                    s,
                    k as int,
                    before.demand,
                    alpha,
                    p,
                ),
                v,
                w,
                k2,
            ) == ledger_x(rows, v, w, k2),
{
    let paths0 = path_views(before.paths@);
    let flows0 = before.flows@;
    let paths1 = path_views(after.paths@);
    let flows1 = flows_with_path(paths0, flows0, s);
    let demand = before.demand;
    let m0 = paths0.len() as int;
    let m = paths1.len() as int;
    let j = path_position(paths0, s);
    lemma_path_position(paths0, s);
    let cleared_y = rows_without_y(rows, rows.len() as int, k as int);
    let rows1 = rows_with_shortest(rows, s, k as int, demand);
    let after_rows = step_rows(rows, paths0, flows0, s, k as int, demand, alpha, p);
    let commits = step_commits(rows, paths0, flows0, s, k as int, demand, alpha, p);
    assert(after.paths@.len() == m);
    assert forall|v: int, w: int|
        ledger_x(rows1, v, w, k2) == ledger_x(rows, v, w, k2) && ledger_x(rows1, v, w, k as int)
            == ledger_x(rows, v, w, k as int) && rows_well_formed(rows1) by {
        lemma_without_y_pointwise(rows, rows.len() as int, k, v, w, k2);
        lemma_without_y_pointwise(rows, rows.len() as int, k, v, w, k as int);
        lemma_put_path_pointwise(cleared_y, s, s.len() as int, k, None, Some(demand), v, w, k2);
        lemma_put_path_pointwise(cleared_y, s, s.len() as int, k, None, Some(demand), v, w, k as int);
    }
    lemma_without_y_pointwise(rows, rows.len() as int, k, 0, 0, 0);
    lemma_put_path_pointwise(cleared_y, s, s.len() as int, k, None, Some(demand), 0, 0, 0);
    assert(rows_well_formed(rows1));
    if commits {
        let loaded = step_loaded(rows, paths0, flows0, s, k as int, demand, alpha, p);
        assert(after.flows@.len() == m);
        lemma_update_edge_flow(rows1, paths1, after.flows@, k, p, 0, 0, 0);
        assert forall|v: int, w: int| #[trigger]
            ledger_x(after_rows, v, w, k as int) == capped(
                path_load(paths1, after.flows@, m, v, w),
            ) by {
            lemma_update_edge_flow(rows1, paths1, after.flows@, k, p, v, w, k as int);
            if !on_some_path(paths1, m, v, w) {
                lemma_no_path_no_load(paths1, after.flows@, m, v, w);
                lemma_load_prefix(paths0, flows0, paths1, flows1, m0, v, w);
                if j == m0 {
                    assert(on_some_path(paths1, m, v, w) == (on_some_path(paths1, m0, v, w) || passes(
                        paths1[m0],
                        paths1[m0].len() as int,
                        v,
                        w,
                    ) > 0));
                }
                lemma_no_path_no_load(paths0, flows0, m0, v, w);
                assert(ledger_x(rows, v, w, k as int) == capped(path_load(paths0, flows0, m0, v, w)));
            }
        }
        if k2 != k {
            assert forall|v: int, w: int| #[trigger]
                ledger_x(after_rows, v, w, k2) == ledger_x(rows, v, w, k2) by {
                lemma_update_edge_flow(rows1, paths1, after.flows@, k, p, v, w, k2);
            }
        }
    } else {
        assert(after.flows@ == flows1);
        assert forall|v: int, w: int| #[trigger]
            ledger_x(after_rows, v, w, k as int) == capped(
                path_load(paths1, after.flows@, m, v, w),
            ) by {
            lemma_load_prefix(paths0, flows0, paths1, flows1, m0, v, w);
            assert(ledger_x(rows, v, w, k as int) == capped(path_load(paths0, flows0, m0, v, w)));
            if j == m0 {
                assert(flows1[m0] == 0);
                assert(0nat * passes(paths1[m0], paths1[m0].len() as int, v, w) == 0) by (nonlinear_arith);
            }
        }
    }
}

/// One projection step keeps a routing sound.
pub proof fn lemma_step_keeps_routing(
    links: Seq<Seq<DirectedEdge>>,
    before: CommodityRouting,
    after: CommodityRouting,
    rows: Seq<LedgerRow>,
    s: Seq<DirectedEdge>,
    k: int,
    alpha: u32,
    p: int,
)
    requires
        routing_ok(links, before),
        is_route(links, s, before.source as int, before.target as int),
        after.source == before.source,
        after.target == before.target,
        after.demand == before.demand,
        path_views(after.paths@) == paths_with(path_views(before.paths@), s),
        after.flows@ == step_flows(
            rows,
            path_views(before.paths@),
            before.flows@,
            s,
            k,
            before.demand,
            alpha,
            p,
        ),
        after.incumbent == before.incumbent || (after.incumbent == path_position(
            path_views(before.paths@),
            s,
        ) && step_commits(
            rows,
            path_views(before.paths@),
            before.flows@,
            s,
            k,
            before.demand,
            alpha,
            p,
        )),
    ensures
        routing_ok(links, after),
{
    let paths0 = path_views(before.paths@);
    let paths1 = path_views(after.paths@);
    let flows0 = before.flows@;
    let flows1 = flows_with_path(paths0, flows0, s);
    let j = path_position(paths0, s);
    let n = paths1.len() as int;
    lemma_path_position(paths0, s);
    assert(after.paths@.len() == paths1.len());
    assert forall|i: int| 0 <= i < after.paths@.len() implies is_route(
        links,
        (#[trigger] after.paths@[i])@,
        after.source as int,
        after.target as int,
    ) by {
        assert(after.paths@[i]@ == paths1[i]);
        if i < paths0.len() {
            assert(paths1[i] == paths0[i]);
            assert(paths0[i] == before.paths@[i]@);
        }
    }
    assert forall|a: int, b: int| 0 <= a < b < after.paths@.len() implies !same_path(
        (#[trigger] after.paths@[a])@,
        (#[trigger] after.paths@[b])@,
    ) by {
        assert(after.paths@[a]@ == paths1[a]);
        assert(after.paths@[b]@ == paths1[b]);
        assert(paths1[a] == paths0[a]);
        assert(paths0[a] == before.paths@[a]@);
        if b < paths0.len() {
            assert(paths1[b] == paths0[b]);
            assert(paths0[b] == before.paths@[b]@);
        } else {
            assert(!same_path(paths0[a], s));
        }
    }
    if j < paths0.len() {
        assert(flows1 == flows0);
    } else {
        lemma_sum_flows_same(flows0, flows1, flows0.len() as int);
    }
    assert(sum_flows(flows1, n) == before.demand);
    let moved = step_moved(rows, paths0, flows0, s, k, before.demand, alpha, p);
    if step_commits(rows, paths0, flows0, s, k, before.demand, alpha, p) {
        lemma_sum_flows_update(
            moved,
            n,
            j,
            (before.demand - sum_flows(moved, moved.len() as int)) as u64,
        );
    }
}

impl FlowDeviation {
    /// The total delay of the network under the routed flows, capped at `u64::MAX`.
    pub closed spec fn delay(&self) -> u64 {
        capped(total_delay_x(self.method@, self.method@.len() as int, self.method.spec_p() as int))
    }

    /// Whether the parts of the optimiser that no routing step touches are the same in
    /// both: the links, the two parameters, and which commodities there are.
    pub open spec fn same_problem(&self, other: &FlowDeviation) -> bool {
        &&& self.links() == other.links()
        &&& self.alpha() == other.alpha()
        &&& self.threshold() == other.threshold()
        &&& self.routings().len() == other.routings().len()
        &&& forall|k: int|
            0 <= k < self.routings().len() ==> (#[trigger] self.routings()[k]).source
                == other.routings()[k].source && self.routings()[k].target
                == other.routings()[k].target && self.routings()[k].demand
                == other.routings()[k].demand
    }

    /// Whether every commodity still has, at the same places, the paths it has in
    /// `other`: paths are added, never taken away.
    pub open spec fn keeps_paths_of(&self, other: &FlowDeviation) -> bool {
        &&& self.routings().len() == other.routings().len()
        &&& forall|k: int|
            0 <= k < other.routings().len() ==> starts_with(
                self.paths_of(k),
                #[trigger] other.paths_of(k),
            )
    }

    /// The paths of commodity `k`.
    pub open spec fn paths_of(&self, k: int) -> Seq<Seq<DirectedEdge>> {
        path_views(self.routings()[k].paths@)
    }

    /// All that the optimiser holds.
    pub open spec fn state(&self) -> StateView {
        state_from(
            self.graph(),
            self.ledger(),
            self.routings(),
            self.bound(),
            self.alpha(),
            self.threshold() as int,
        )
    }

    /// The routing of every commodity.
    pub fn get_routings(&self) -> (r: &Vec<CommodityRouting>)
        ensures
            r@ == self.routings(),
    {
        &self.commodities
    }

    /// The graph with the costs of the moment.
    pub fn get_graph(&self) -> (g: &EdgeWeightedDigraph)
        ensures
            g@ == self.graph(),
            self.wf() ==> g.wf(),
    {
        &self.graph
    }

    /// The ledger with its parameters.
    pub fn get_method(&self) -> (m: &ProjectionMethod)
        ensures
            m@ == self.ledger(),
            m.spec_alpha() == self.alpha(),
            m.spec_p() == self.threshold(),
            self.wf() ==> m.wf(),
    {
        &self.method
    }

    /// The largest bound that the stopping rule has drawn from the states so far.
    pub fn get_lower_bound(&self) -> (b: u64)
        ensures
            b == self.bound(),
    {
        self.lower_bound
    }

    /// The total delay of the network under the routed flows.
    pub fn get_delay_value(&self) -> (d: u64)
        requires
            self.wf(),
        ensures
            d == self.delay(),
    {
        self.method.get_delay_value_x()
    }

    /// Looks for a better routing of commodity `k`: as long as its shortest path under
    /// the costs of the moment is not the path it used last, one projection step moves
    /// flow towards the shortest path. The search ends as `Settled` when the shortest
    /// path found is the path used last, as `Degenerate` when a step left nothing for the
    /// shortest path, and as `StepLimit` when `max_steps` steps were taken and the
    /// shortest path is still another one. Where no path leads to the target it fails.
    pub fn route_commodity(&mut self, k: usize, max_steps: u32) -> (r: Result<
        InnerStop,
        RoutingError,
    >)
        requires
            old(self).wf(),
            k < old(self).routings().len(),
        ensures
            final(self).wf(),
            final(self).same_problem(old(self)),
            final(self).keeps_paths_of(old(self)),
            final(self).bound() == old(self).bound(),
            forall|i: int|
                0 <= i < final(self).routings().len() && i != k ==> final(self).routings()[i]
                    == old(self).routings()[i],
            route_outcome(old(self).state(), final(self).state(), k as int, max_steps, r),
    {
        let mut steps: u32 = 0;
        loop
            invariant
                self.wf(),
                reached_by_steps(old(self).state(), self.state(), k as int, steps as nat),
                self.same_problem(old(self)),
                self.keeps_paths_of(old(self)),
                self.bound() == old(self).bound(),
                k < self.routings().len(),
                steps <= max_steps,
                forall|i: int|
                    0 <= i < self.routings().len() && i != k ==> self.routings()[i]
                        == old(self).routings()[i],
            decreases max_steps - steps,
        {
            let source = self.commodities[k].source;
            let target = self.commodities[k].target;
            proof {
                assert(routing_ok(self.links@, self.commodities@[k as int]));
            }
            let sp = DijkstraSP::dijkstra(&self.graph, source);
            let path = match sp.path_to(target as usize) {
                Some(path) => path,
                None => {
                    proof {
                        assert(sp.dist(target as int) == UNREACHED);
                        assert(reached_within(
                            old(self).state(),
                            self.state(),
                            k as int,
                            max_steps as int,
                        ));
                    }
                    return Err(RoutingError::NoPath(k));
                },
            };
            let incumbent = self.commodities[k].incumbent;
            proof {
                assert(sp.dist(target as int) == path_cost(path@));
                assert(is_shortest_path(self.graph(), path@, source as int, target as int));
            }
            if is_same_path(&path, &self.commodities[k].paths[incumbent]) {
                proof {
                    let c = self.state().routings[k as int];
                    assert(is_shortest_path(self.graph(), path@, c.source as int, c.target as int)
                        && same_path(path@, c.paths[c.incumbent]) == true);
                    assert(reached_within(
                        old(self).state(),
                        self.state(),
                        k as int,
                        max_steps as int,
                    ));
                }
                return Ok(InnerStop::Settled);
            }
            if steps == max_steps {
                proof {
                    let c = self.state().routings[k as int];
                    assert(is_shortest_path(self.graph(), path@, c.source as int, c.target as int)
                        && same_path(path@, c.paths[c.incumbent]) == false);
                }
                return Ok(InnerStop::StepLimit);
            }
            let ghost before = *self;
            let ghost c0 = self.commodities@[k as int];
            proof {
                lemma_path_is_route(self.graph@, self.links@, path@, source as int, target as int);
            }
            let committed = project_commodity(
                &mut self.commodities[k],
                &mut self.method,
                &mut self.graph,
                k as i32,
                &path,
            );
            steps = steps + 1;
            proof {
                let c1 = self.commodities@[k as int];
                assert((k as i32) as int == k as int);
                lemma_path_position(path_views(c0.paths@), path@);
                lemma_step_keeps_routing(
                    self.links@,
                    c0,
                    c1,
                    before.method@,
                    path@,
                    k as int,
                    before.method.spec_alpha(),
                    before.method.spec_p() as int,
                );
                if committed {
                    let loaded = step_loaded(
                        before.method@,
                        path_views(c0.paths@),
                        c0.flows@,
                        path@,
                        k as int,
                        c0.demand,
                        before.method.spec_alpha(),
                        before.method.spec_p() as int,
                    );
                    lemma_refreshed_same_links(
                        before.graph@,
                        loaded,
                        loaded.len() as int,
                        before.method.spec_p() as int,
                    );
                    lemma_same_links_flip(before.graph@, self.graph@);
                    lemma_same_links_trans(self.graph@, before.graph@, self.links@);
                }
                assert forall|i: int| 0 <= i < self.commodities@.len() implies routing_ok(
                    self.links@,
                    #[trigger] self.commodities@[i],
                ) by {
                    if i != k {
                        assert(self.commodities@[i] == before.commodities@[i]);
                    }
                }
                assert forall|c: int| 0 <= c < before.routings().len() implies starts_with(
                    self.paths_of(c),
                    #[trigger] before.paths_of(c),
                ) by {
                    if c != k {
                        assert(self.commodities@[c] == before.commodities@[c]);
                    }
                }
                assert(self.keeps_paths_of(&before));
                assert(ledger_matches(before.method@, k as int, c0));
                assert forall|c: int| 0 <= c < self.commodities@.len() implies ledger_matches(
                    self.method@,
                    c,
                    #[trigger] self.commodities@[c],
                ) by {
                    lemma_step_keeps_ledger(
                        before.method@,
                        c0,
                        c1,
                        path@,
                        k as i32,
                        before.method.spec_alpha(),
                        before.method.spec_p() as int,
                        c,
                    );
                    if c != k {
                        let cc = before.commodities@[c];
                        assert(self.commodities@[c] == cc);
                        assert(ledger_matches(before.method@, c, cc));
                        assert forall|v: int, w: int| #[trigger]
                            ledger_x(self.method@, v, w, c) == capped(
                                path_load(
                                    path_views(cc.paths@),
                                    cc.flows@,
                                    cc.paths@.len() as int,
                                    v,
                                    w,
                                ),
                            ) by {
                            assert(ledger_x(self.method@, v, w, c) == ledger_x(before.method@, v, w, c));
                        }
                    }
                }
                lemma_keeps_paths(old(self), &before, self);
                let from = before.state();
                let to = stepped(from, k as int, path@);
                assert(may_step(from, k as int, path@));
                assert(committed == step_taken(from, k as int, path@));
                assert(self.state().routings =~= to.routings) by {
                    assert forall|i: int| 0 <= i < self.commodities@.len() implies routing_view(
                        self.routings()[i],
                    ) == to.routings[i] by {
                        if i != k {
                            assert(self.commodities@[i] == before.commodities@[i]);
                        }
                    }
                }
                assert(self.state() == to);
                if committed {
                    assert(reached_by_steps(old(self).state(), self.state(), k as int, steps as nat));
                } else {
                    assert(reached_within(old(self).state(), from, k as int, max_steps - 1));
                }
            }
            if !committed {
                return Ok(InnerStop::Degenerate);
            }
        }
    }

    /// One pass of the optimisation: every commodity in turn looks for a better routing,
    /// then the bound is raised to what the state before the pass entails. Returns
    /// whether the total delay now exceeds the bound by no more than `eps` millionths of
    /// it.
    pub fn pass(&mut self, eps: u32, max_steps: u32) -> (r: Result<bool, RoutingError>)
        requires
            old(self).wf(),
        ensures
            final(self).wf(),
            final(self).same_problem(old(self)),
            final(self).keeps_paths_of(old(self)),
            pass_outcome(old(self).state(), final(self).state(), eps, max_steps, r),
    {
        let x = self.method.get_total_flow_vector_x();
        let y = self.method.get_total_flow_vector_y();
        let grad = self.method.get_delay_gradient();
        let phi = self.method.get_delay_value_x();
        let n = self.commodities.len();
        let mut k: usize = 0;
        while k < n
            invariant
                k <= n,
                n == self.routings().len(),
                self.wf(),
                self.same_problem(old(self)),
                self.keeps_paths_of(old(self)),
                self.bound() == old(self).bound(),
                n == old(self).state().routings.len(),
                routed_in_turn(old(self).state(), self.state(), k as nat, max_steps),
            decreases n - k,
        {
            let ghost before = *self;
            proof {
                lemma_keeps_paths(old(self), &before, &before);
            }
            match self.route_commodity(k, max_steps) {
                Ok(stop) => {
                    proof {
                        lemma_keeps_paths(old(self), &before, self);
                        assert(route_outcome(
                            before.state(),
                            self.state(),
                            (k + 1) - 1,
                            max_steps,
                            Ok(stop),
                        ));
                        assert(routed_in_turn(
                            old(self).state(),
                            self.state(),
                            (k + 1) as nat,
                            max_steps,
                        ));
                    }
                },
                Err(e) => {
                    proof {
                        lemma_keeps_paths(old(self), &before, self);
                        assert(routed_in_turn(old(self).state(), before.state(), k as nat, max_steps)
                            && route_outcome(before.state(), self.state(), k as int, max_steps, Err(e)));
                    }
                    return Err(e);
                },
            }
            k = k + 1;
        }
        let phi_next = self.method.get_delay_value_x();
        let candidate = lower_bound(phi, &grad, &x, &y);
        let ghost routed = *self;
        if candidate > self.lower_bound {
            self.lower_bound = candidate;
        }
        proof {
            assert forall|c: int| 0 <= c < routed.routings().len() implies starts_with(
                self.paths_of(c),
                #[trigger] routed.paths_of(c),
            ) by {}
            lemma_keeps_paths(old(self), &routed, self);
            assert(self.state().routings =~= routed.state().routings);
            assert(self.state() == (StateView { bound: raised_bound(old(self).state()), ..routed.state() }));
            assert(routed_in_turn(
                old(self).state(),
                routed.state(),
                old(self).state().routings.len(),
                max_steps,
            ));
        }
        Ok(is_within_gap(phi_next, self.lower_bound, eps))
    }

    /// Makes passes until the total delay exceeds the bound by no more than `eps`
    /// millionths of it, and at most `max_passes` of them; in each pass every commodity
    /// takes at most `max_steps` projection steps.
    pub fn run(&mut self, eps: u32, max_passes: u32, max_steps: u32) -> (r: Result<
        Stop,
        RoutingError,
    >)
        requires
            old(self).wf(),
        ensures
            final(self).wf(),
            final(self).same_problem(old(self)),
            final(self).keeps_paths_of(old(self)),
            run_outcome(old(self).state(), final(self).state(), eps, max_passes, max_steps, r),
            r == Ok::<Stop, RoutingError>(Stop::Converged) ==> within_gap(
                final(self).delay(),
                final(self).bound(),
                eps,
            ),
    {
        let mut passes: u32 = 0;
        while passes < max_passes
            invariant
                passes <= max_passes,
                self.wf(),
                self.same_problem(old(self)),
                self.keeps_paths_of(old(self)),
                passes_made(old(self).state(), self.state(), passes as nat, eps, max_steps),
            decreases max_passes - passes,
        {
            let ghost before = *self;
            let outcome = self.pass(eps, max_steps);
            proof {
                lemma_keeps_paths(old(self), &before, self);
            }
            match outcome {
                Ok(done) => {
                    if done {
                        proof {
                            assert(passes_made(
                                old(self).state(),
                                before.state(),
                                passes as nat,
                                eps,
                                max_steps,
                            ) && pass_outcome(before.state(), self.state(), eps, max_steps, Ok(true)));
                            let mid = choose|mid: StateView|
                                {
                                    &&& #[trigger] routed_in_turn(
                                        before.state(),
                                        mid,
                                        before.state().routings.len(),
                                        max_steps,
                                    )
                                    &&& self.state() == (StateView {
                                        bound: raised_bound(before.state()),
                                        ..mid
                                    })
                                    &&& true == within_gap(
                                        delay_of(self.state().rows, self.state().p),
                                        self.state().bound,
                                        eps,
                                    )
                                };
                        }
                        return Ok(Stop::Converged);
                    }
                    proof {
                        assert(pass_outcome(before.state(), self.state(), eps, max_steps, Ok(false)));
                        assert(passes_made(
                            old(self).state(),
                            self.state(),
                            (passes + 1) as nat,
                            eps,
                            max_steps,
                        ));
                    }
                },
                Err(e) => {
                    proof {
                        assert(passes_made(
                            old(self).state(),
                            before.state(),
                            passes as nat,
                            eps,
                            max_steps,
                        ) && pass_outcome(before.state(), self.state(), eps, max_steps, Err(e)));
                    }
                    return Err(e);
                },
            }
            passes = passes + 1;
        }
        Ok(Stop::PassLimit)
    }
}


/// Whether the path that commodity `k` used last is, in the state `a`, the only path from
/// its source to its target that passes no vertex twice.
pub open spec fn only_path(a: StateView, k: int) -> bool {
    forall|s: Seq<DirectedEdge>| #[trigger]
        is_simple_path(a.adj, s, a.routings[k].source as int, a.routings[k].target as int)
            ==> same_path(s, a.routings[k].paths[a.routings[k].incumbent])
}

proof fn lemma_no_step(a: StateView, b: StateView, k: int, n: nat)
    requires
        only_path(a, k),
        reached_by_steps(a, b, k, n),
    ensures
        n == 0,
        b == a,
    decreases n,
{
    if n > 0 {
        let (mid, s) = choose|mid: StateView, s: Seq<DirectedEdge>|
            #![trigger stepped(mid, k, s)]
            reached_by_steps(a, mid, k, (n - 1) as nat) && may_step(mid, k, s) && step_taken(
                mid,
                k,
                s,
            ) && b == stepped(mid, k, s);
        lemma_no_step(a, mid, k, (n - 1) as nat);
        assert(is_simple_path(
            a.adj,
            s,
            a.routings[k].source as int,
            a.routings[k].target as int,
        ));
    }
}

/// Where a commodity has one path only from its source to its target, and that is the
/// path it used last, the search for a better routing takes no step: it leaves the state
/// as it is and ends as `Settled`, unless it fails because nothing of representable cost
/// leads to the target.
pub proof fn lemma_only_path_settles(
    a: StateView,
    b: StateView,
    k: int,
    max_steps: u32,
    r: Result<InnerStop, RoutingError>,
)
    requires
        only_path(a, k),
        route_outcome(a, b, k, max_steps, r),
    ensures
        b == a,
        r == Ok::<InnerStop, RoutingError>(InnerStop::Settled) || r is Err,
        r is Err ==> is_shortest_distance(
            a.adj,
            a.routings[k].source as int,
            a.routings[k].target as int,
            UNREACHED,
        ),
{
    match r {
        Ok(InnerStop::Degenerate) => {
            let (mid, s) = choose|mid: StateView, s: Seq<DirectedEdge>|
                #![trigger stepped(mid, k, s)]
                reached_within(a, mid, k, max_steps - 1) && may_step(mid, k, s) && !step_taken(
                    mid,
                    k,
                    s,
                ) && b == stepped(mid, k, s);
            let n = choose|n: nat| n <= max_steps - 1 && #[trigger] reached_by_steps(a, mid, k, n);
            lemma_no_step(a, mid, k, n);
            assert(is_simple_path(
                a.adj,
                s,
                a.routings[k].source as int,
                a.routings[k].target as int,
            ));
        },
        Ok(InnerStop::StepLimit) => {
            lemma_no_step(a, b, k, max_steps as nat);
            let path = choose|path: Seq<DirectedEdge>|
                {
                    &&& #[trigger] is_shortest_path(
                        b.adj,
                        path,
                        b.routings[k].source as int,
                        b.routings[k].target as int,
                    )
                    &&& same_path(path, b.routings[k].paths[b.routings[k].incumbent]) == false
                };
            assert(is_simple_path(
                a.adj,
                path,
                a.routings[k].source as int,
                a.routings[k].target as int,
            ));
        },
        _ => {
            let n = choose|n: nat| n <= max_steps && #[trigger] reached_by_steps(a, b, k, n);
            lemma_no_step(a, b, k, n);
        },
    }
}

/// Whether every edge of the ledger carries as much routed flow as shortest-path flow,
/// and no more than the delay is computed for.
pub open spec fn flows_balanced(rows: Seq<LedgerRow>) -> bool {
    forall|i: int|
        0 <= i < rows.len() ==> row_total_x(#[trigger] rows[i]) == row_total_y(rows[i])
            && row_total_x(rows[i]) <= MAX_AMOUNT
}

proof fn lemma_gap_zero(grad: Seq<u64>, x: Seq<u64>, n: int)
    ensures
        gap_sum(grad, x, x, n) == 0,
    decreases n,
{
    if n > 0 {
        lemma_gap_zero(grad, x, n - 1);
        assert(grad[n - 1] * (x[n - 1] - x[n - 1]) == 0) by (nonlinear_arith);
    }
}

/// Where every edge carries as much routed flow as shortest-path flow, the bound that the
/// stopping rule draws from the state is the total delay itself.
pub proof fn lemma_balanced_bound(rows: Seq<LedgerRow>, phi: u64, p: int)
    requires
        flows_balanced(rows),
        rows.len() <= i32::MAX,
    ensures
        state_bound(rows, phi, p) == phi,
{
    let n = rows.len() as int;
    let sorted = rows_by_key(rows, n);
    lemma_rows_by_key(rows, n);
    assert(rows.take(n) =~= rows);
    assert forall|j: int| 0 <= j < n implies row_total_x(#[trigger] sorted[j]) == row_total_y(
        sorted[j],
    ) && row_total_x(sorted[j]) <= MAX_AMOUNT by {
        assert(sorted.contains(sorted[j]));
        assert(rows.contains(sorted[j]));
        let i = choose|i: int| 0 <= i < rows.len() && rows[i] == sorted[j];
        assert(row_total_x(rows[i]) == row_total_y(rows[i]));
    }
    assert(totals_x(sorted, n) =~= totals_y(sorted, n));
    lemma_gap_zero(crate::projection_method::gradient_of(sorted, n, p), totals_x(sorted, n), n);
}

/// One pass for a single commodity that has one path only: the pass changes nothing but
/// the bound, which becomes the total delay at least, and it finds the total delay within
/// every tolerance of the bound. The pass fails, and changes nothing, only where no walk
/// of a cost below `UNREACHED` leads to the target.
pub proof fn lemma_single_path_pass(
    a: StateView,
    b: StateView,
    eps: u32,
    max_steps: u32,
    r: Result<bool, RoutingError>,
)
    requires
        a.routings.len() == 1,
        only_path(a, 0),
        flows_balanced(a.rows),
        a.rows.len() <= i32::MAX,
        pass_outcome(a, b, eps, max_steps, r),
    ensures
        r is Ok ==> r == Ok::<bool, RoutingError>(true) && b == (StateView {
            bound: raised_bound(a),
            ..a
        }),
        r is Err ==> b == a,
        r is Err ==> is_shortest_distance(
            a.adj,
            a.routings[0].source as int,
            a.routings[0].target as int,
            UNREACHED,
        ),
{
    match r {
        Ok(done) => {
            let mid = choose|mid: StateView|
                {
                    &&& #[trigger] routed_in_turn(a, mid, a.routings.len(), max_steps)
                    &&& b == (StateView { bound: raised_bound(a), ..mid })
                    &&& done == within_gap(delay_of(b.rows, b.p), b.bound, eps)
                };
            let (first, stop) = choose|first: StateView, stop: InnerStop|
                #![trigger route_outcome(first, mid, 1 - 1, max_steps, Ok(stop))]
                routed_in_turn(a, first, (1 - 1) as nat, max_steps) && route_outcome(
                    first,
                    mid,
                    1 - 1,
                    max_steps,
                    Ok(stop),
                );
            lemma_only_path_settles(a, mid, 0, max_steps, Ok(stop));
            lemma_balanced_bound(a.rows, delay_of(a.rows, a.p), a.p);
            let phi = delay_of(a.rows, a.p);
            assert(b.bound >= phi);
            assert(phi * 1000000 <= (1000000 + eps) * b.bound) by (nonlinear_arith)
                requires
                    0 <= phi <= b.bound,
                    0 <= eps,
            ;
        },
        Err(e) => {
            let (k, mid) = choose|k: nat, mid: StateView|
                {
                    &&& k < a.routings.len()
                    &&& #[trigger] routed_in_turn(a, mid, k, max_steps)
                    &&& route_outcome(mid, b, k as int, max_steps, Err(e))
                };
            lemma_only_path_settles(a, b, 0, max_steps, Err(e));
        },
    }
}

proof fn lemma_no_failed_pass(a: StateView, b: StateView, n: nat, eps: u32, max_steps: u32)
    requires
        a.routings.len() == 1,
        only_path(a, 0),
        flows_balanced(a.rows),
        a.rows.len() <= i32::MAX,
        passes_made(a, b, n, eps, max_steps),
    ensures
        n == 0,
        b == a,
    decreases n,
{
    if n > 0 {
        let mid = choose|mid: StateView|
            #![trigger pass_outcome(mid, b, eps, max_steps, Ok(false))]
            passes_made(a, mid, (n - 1) as nat, eps, max_steps) && pass_outcome(
                mid,
                b,
                eps,
                max_steps,
                Ok(false),
            );
        lemma_no_failed_pass(a, mid, (n - 1) as nat, eps, max_steps);
        lemma_single_path_pass(a, b, eps, max_steps, Ok(false));
    }
}

/// A run for a single commodity that has one path only, in a state in which every edge
/// carries as much routed flow as shortest-path flow: the run ends as `Converged` with
/// its first pass and changes nothing but the bound. It fails, and changes nothing, only
/// where no walk of a cost below `UNREACHED` leads to the target.
pub proof fn lemma_single_path_run(
    a: StateView,
    b: StateView,
    eps: u32,
    max_passes: u32,
    max_steps: u32,
    r: Result<Stop, RoutingError>,
)
    requires
        a.routings.len() == 1,
        only_path(a, 0),
        flows_balanced(a.rows),
        a.rows.len() <= i32::MAX,
        max_passes >= 1,
        run_outcome(a, b, eps, max_passes, max_steps, r),
    ensures
        r is Ok ==> r == Ok::<Stop, RoutingError>(Stop::Converged) && b == (StateView {
            bound: raised_bound(a),
            ..a
        }),
        r is Err ==> b == a,
        r is Err ==> is_shortest_distance(
            a.adj,
            a.routings[0].source as int,
            a.routings[0].target as int,
            UNREACHED,
        ),
{
    match r {
        Ok(Stop::PassLimit) => {
            lemma_no_failed_pass(a, b, max_passes as nat, eps, max_steps);
        },
        Ok(Stop::Converged) => {
            let (n, mid) = choose|n: nat, mid: StateView|
                {
                    &&& n < max_passes
                    &&& #[trigger] passes_made(a, mid, n, eps, max_steps)
                    &&& pass_outcome(mid, b, eps, max_steps, Ok(true))
                };
            lemma_no_failed_pass(a, mid, n, eps, max_steps);
            lemma_single_path_pass(a, b, eps, max_steps, Ok(true));
        },
        Err(e) => {
            let (n, mid) = choose|n: nat, mid: StateView|
                {
                    &&& n < max_passes
                    &&& #[trigger] passes_made(a, mid, n, eps, max_steps)
                    &&& pass_outcome(mid, b, eps, max_steps, Err(e))
                };
            lemma_no_failed_pass(a, mid, n, eps, max_steps);
            lemma_single_path_pass(a, b, eps, max_steps, Err(e));
        },
    }
}


/// Whether every row holds one entry only: that of commodity 0, with `d` as both flows.
spec fn rows_hold_one(rows: Seq<LedgerRow>, d: u64) -> bool {
    forall|i: int|
        0 <= i < rows.len() ==> (#[trigger] rows[i]).flows == seq![
            CommodityFlow { commodity: 0, x: d, y: d },
        ]
}

proof fn lemma_put_path_holds_one(s: Seq<DirectedEdge>, n: int, d: u64)
    requires
        0 <= n <= s.len(),
    ensures
        rows_hold_one(rows_put_path(Seq::empty(), s, n, 0, Some(d), Some(d)), d),
    decreases n,
{
    if n > 0 {
        lemma_put_path_holds_one(s, n - 1, d);
        let before = rows_put_path(Seq::empty(), s, n - 1, 0, Some(d), Some(d));
        let e = s[n - 1];
        let i = row_position(before, e.v as int, e.w as int);
        lemma_row_position(before, e.v as int, e.w as int);
        let one = seq![CommodityFlow { commodity: 0, x: d, y: d }];
        if i < before.len() {
            assert(before[i].flows == one);
            assert(entry_position(one, 0) == 0);
            assert(flows_with(one, 0, d, d) =~= one);
        }
    }
}

/// A single commodity of a demand within the range of the delay function, placed on a
/// path in a network without flow: it stands alone in the state, on that path, and every
/// edge of the ledger carries as much routed flow as shortest-path flow.
pub proof fn lemma_first_placement(
    adj: Seq<Seq<DirectedEdge>>,
    alpha: u32,
    p: int,
    d: Demand,
    s: Seq<DirectedEdge>,
)
    requires
        d.demand_value <= MAX_AMOUNT,
    ensures
        placed_one(first_state(adj, alpha, p), d, s).routings.len() == 1,
        placed_one(first_state(adj, alpha, p), d, s).routings[0].paths == seq![s],
        placed_one(first_state(adj, alpha, p), d, s).routings[0].incumbent == 0,
        flows_balanced(placed_one(first_state(adj, alpha, p), d, s).rows),
{
    let recorded = rows_put_path(
        Seq::empty(),
        s,
        s.len() as int,
        0,
        Some(d.demand_value),
        Some(d.demand_value),
    );
    lemma_put_path_holds_one(s, s.len() as int, d.demand_value);
    let rows = placed_one(first_state(adj, alpha, p), d, s).rows;
    let one = seq![CommodityFlow { commodity: 0, x: d.demand_value, y: d.demand_value }];
    assert(one.drop_last() =~= Seq::<CommodityFlow>::empty());
    assert(sum_x(one) == d.demand_value) by {
        assert(sum_x(one.drop_last()) == 0);
    }
    assert(sum_y(one) == d.demand_value) by {
        assert(sum_y(one.drop_last()) == 0);
    }
    assert forall|i: int| 0 <= i < rows.len() implies row_total_x(#[trigger] rows[i])
        == row_total_y(rows[i]) && row_total_x(rows[i]) <= MAX_AMOUNT by {
        assert(recorded[i].flows == one);
        assert(rows[i].flows == one);
    }
}


/// A network with one commodity whose demand is within the range of the delay function
/// and which has one path only from its source to its target: after the placement, a run
/// of at least one pass ends as `Converged` with its first pass, and the whole demand
/// stays on that path. The run fails only where no walk of a cost below `UNREACHED` leads
/// to the target.
pub proof fn lemma_single_path_converges(
    adj: Seq<Seq<DirectedEdge>>,
    alpha: u32,
    p: int,
    d: Demand,
    a: StateView,
    b: StateView,
    eps: u32,
    max_passes: u32,
    max_steps: u32,
    r: Result<Stop, RoutingError>,
)
    requires
        d.demand_value <= MAX_AMOUNT,
        placed_all(first_state(adj, alpha, p), a, seq![d], 1),
        only_path(a, 0),
        a.rows.len() <= i32::MAX,
        max_passes >= 1,
        run_outcome(a, b, eps, max_passes, max_steps, r),
    ensures
        r is Ok ==> r == Ok::<Stop, RoutingError>(Stop::Converged),
        r is Err ==> is_shortest_distance(
            a.adj,
            a.routings[0].source as int,
            a.routings[0].target as int,
            UNREACHED,
        ),
        b.routings == a.routings,
        b.rows == a.rows,
        b.adj == a.adj,
        b.routings.len() == 1,
        b.routings[0].paths.len() == 1,
        b.routings[0].flows == seq![d.demand_value],
{
    let demands = seq![d];
    let (mid, s) = choose|mid: StateView, s: Seq<DirectedEdge>|
        #![trigger placed_one(mid, demands[1 - 1], s)]
        placed_all(first_state(adj, alpha, p), mid, demands, (1 - 1) as nat) && is_shortest_path(
            mid.adj,
            s,
            demands[1 - 1].source as int,
            demands[1 - 1].target as int,
        ) && a == placed_one(mid, demands[1 - 1], s);
    assert(mid == first_state(adj, alpha, p));
    lemma_first_placement(adj, alpha, p, d, s);
    lemma_single_path_run(a, b, eps, max_passes, max_steps, r);
}

} // verus!
