use vstd::prelude::*;
use crate::delay_func_count::count_delay_value;
use crate::delay_func_count::count_first_derivative;
use crate::delay_func_count::count_second_derivative;
use crate::delay_func_count::delay_value;
use crate::delay_func_count::first_derivative;
use crate::delay_func_count::second_derivative;
use crate::graph::DirectedEdge;
use crate::graph::EdgeWeightedDigraph;
use crate::graph::first_to;
use crate::graph::lemma_first_to;
use crate::graph::lemma_first_to_same_ends;
use crate::graph::lemma_with_cost_pointwise;
use crate::graph::with_cost;
use crate::utils_graph::CommodityFlow;
use crate::utils_graph::EdgeFlowCommodities;
use crate::utils_graph::capped;
use crate::utils_graph::distinct_commodities;
use crate::utils_graph::edge_key;
use crate::utils_graph::edge_key_text;
use crate::utils_graph::is_text_before;
use crate::utils_graph::lemma_text_order_carries;
use crate::utils_graph::lemma_text_order_strict;
use crate::utils_graph::text_before;
use crate::utils_graph::flow_x_of;
use crate::utils_graph::flow_y_of;
use crate::utils_graph::flows_with;
use crate::utils_graph::has_entry;
use crate::utils_graph::lemma_flows_with;
use crate::utils_graph::sum_x;
use crate::utils_graph::sum_y;

verus! {

/// What the ledger holds for one edge: a copy of the edge and the flows recorded on it.
pub ghost struct LedgerRow {
    pub edge: DirectedEdge,
    pub flows: Seq<CommodityFlow>,
}

/// The position of the first row for the edge from `v` to `w`, or the number of rows if
/// there is none.
pub open spec fn row_position(rows: Seq<LedgerRow>, v: int, w: int) -> int
    decreases rows.len(),
{
    if rows.len() == 0 {
        0
    } else if rows[0].edge.v == v && rows[0].edge.w == w {
        0
    } else {
        1 + row_position(rows.drop_first(), v, w)
    }
}

/// No edge has two rows, and in no row a commodity has two entries.
pub open spec fn rows_well_formed(rows: Seq<LedgerRow>) -> bool {
    &&& forall|i: int| 0 <= i < rows.len() ==> distinct_commodities((#[trigger] rows[i]).flows)
    &&& forall|i: int, j: int|
        0 <= i < j < rows.len() ==> !((#[trigger] rows[i]).edge.v == (#[trigger] rows[j]).edge.v
            && rows[i].edge.w == rows[j].edge.w)
}

/// The routed flow of all commodities together on the edge of a row.
pub open spec fn row_total_x(row: LedgerRow) -> u64 {
    capped(sum_x(row.flows))
}

/// The shortest-path flow of all commodities together on the edge of a row.
pub open spec fn row_total_y(row: LedgerRow) -> u64 {
    capped(sum_y(row.flows))
}

/// The rows after commodity `k` got, on the edge `e`, the routed flow `x` and the
/// shortest-path flow `y`; a flow that is not given stays as it is. An edge without a
/// row gets one, with zero for a flow that is not given.
pub open spec fn rows_put(rows: Seq<LedgerRow>, e: DirectedEdge, k: int, x: Option<u64>, y: Option<
    u64,
>) -> Seq<LedgerRow> {
    let i = row_position(rows, e.v as int, e.w as int);
    if i < rows.len() {
        let f = rows[i].flows;
        let new_x = if x is Some {
            x->0
        } else {
            flow_x_of(f, k)
        };
        let new_y = if y is Some {
            y->0
        } else {
            flow_y_of(f, k)
        };
        rows.update(i, LedgerRow { edge: rows[i].edge, flows: flows_with(f, k, new_x, new_y) })
    } else {
        let new_x = if x is Some {
            x->0
        } else {
            0
        };
        let new_y = if y is Some {
            y->0
        } else {
            0
        };
        rows.push(
            LedgerRow { edge: e, flows: seq![CommodityFlow { commodity: k as i32, x: new_x, y: new_y }] },
        )
    }
}

/// The rows after `rows_put` was applied for each of the first `n` edges of `path`.
pub open spec fn rows_put_path(
    rows: Seq<LedgerRow>,
    path: Seq<DirectedEdge>,
    n: int,
    k: int,
    x: Option<u64>,
    y: Option<u64>,
) -> Seq<LedgerRow>
    decreases n,
{
    if n <= 0 {
        rows
    } else {
        rows_put(rows_put_path(rows, path, n - 1, k, x, y), path[n - 1], k, x, y)
    }
}

/// The routed flow that the rows hold for commodity `k` on the edge from `v` to `w`;
/// zero where they hold none.
pub open spec fn ledger_x(rows: Seq<LedgerRow>, v: int, w: int, k: int) -> u64 {
    let i = row_position(rows, v, w);
    if i < rows.len() {
        flow_x_of(rows[i].flows, k)
    } else {
        0
    }
}

/// The shortest-path flow that the rows hold for commodity `k` on the edge from `v` to
/// `w`; zero where they hold none.
pub open spec fn ledger_y(rows: Seq<LedgerRow>, v: int, w: int, k: int) -> u64 {
    let i = row_position(rows, v, w);
    if i < rows.len() {
        flow_y_of(rows[i].flows, k)
    } else {
        0
    }
}

/// The routed flow of all commodities together that the rows hold on the edge from `v`
/// to `w`, capped at `u64::MAX`; zero where they hold none.
pub open spec fn ledger_total_x(rows: Seq<LedgerRow>, v: int, w: int) -> u64 {
    let i = row_position(rows, v, w);
    if i < rows.len() {
        row_total_x(rows[i])
    } else {
        0
    }
}

/// The routed flow that the rows hold for commodity `k` on the edge `e`.
pub open spec fn rows_flow_x(rows: Seq<LedgerRow>, e: DirectedEdge, k: int) -> u64 {
    ledger_x(rows, e.v as int, e.w as int, k)
}

/// How often the first `n` edges of `path` go from `v` to `w`.
pub open spec fn passes(path: Seq<DirectedEdge>, n: int, v: int, w: int) -> nat
    decreases n,
{
    if n <= 0 {
        0
    } else {
        passes(path, n - 1, v, w) + if path[n - 1].v == v && path[n - 1].w == w {
            1nat
        } else {
            0nat
        }
    }
}

/// Whether one of the first `m` paths goes from `v` to `w`.
pub open spec fn on_some_path(paths: Seq<Seq<DirectedEdge>>, m: int, v: int, w: int) -> bool
    decreases m,
{
    if m <= 0 {
        false
    } else {
        on_some_path(paths, m - 1, v, w) || passes(paths[m - 1], paths[m - 1].len() as int, v, w)
            > 0
    }
}

/// The flow that the first `m` paths together send from `v` to `w`: each path its flow,
/// as often as it passes there.
pub open spec fn path_load(paths: Seq<Seq<DirectedEdge>>, flows: Seq<u64>, m: int, v: int, w: int) -> nat
    decreases m,
{
    if m <= 0 {
        0
    } else {
        path_load(paths, flows, m - 1, v, w) + flows[m - 1] as nat * passes(
            paths[m - 1],
            paths[m - 1].len() as int,
            v,
            w,
        )
    }
}

/// The rows after the routed flow of commodity `k` on the edge `e` grew by `flow`.
pub open spec fn rows_add(rows: Seq<LedgerRow>, e: DirectedEdge, k: int, flow: u64) -> Seq<
    LedgerRow,
> {
    rows_put(rows, e, k, Some(capped((rows_flow_x(rows, e, k) + flow) as nat)), None)
}

/// The rows after `rows_add` was applied for each of the first `n` edges of `path`.
pub open spec fn rows_add_path(
    rows: Seq<LedgerRow>,
    path: Seq<DirectedEdge>,
    n: int,
    k: int,
    flow: u64,
) -> Seq<LedgerRow>
    decreases n,
{
    if n <= 0 {
        rows
    } else {
        rows_add(rows_add_path(rows, path, n - 1, k, flow), path[n - 1], k, flow)
    }
}

/// The rows after commodity `k` lost its routed flow on every edge of the first `m`
/// paths.
pub open spec fn rows_cleared(rows: Seq<LedgerRow>, paths: Seq<Seq<DirectedEdge>>, m: int, k: int) -> Seq<
    LedgerRow,
>
    decreases m,
{
    if m <= 0 {
        rows
    } else {
        rows_put_path(
            rows_cleared(rows, paths, m - 1, k),
            paths[m - 1],
            paths[m - 1].len() as int,
            k,
            Some(0),
            None,
        )
    }
}

/// The rows after each of the first `m` paths added its flow to the routed flow of
/// commodity `k` on each of its edges.
pub open spec fn rows_loaded(
    rows: Seq<LedgerRow>,
    paths: Seq<Seq<DirectedEdge>>,
    flows: Seq<u64>,
    m: int,
    k: int,
) -> Seq<LedgerRow>
    decreases m,
{
    if m <= 0 {
        rows
    } else {
        rows_add_path(
            rows_loaded(rows, paths, flows, m - 1, k),
            paths[m - 1],
            paths[m - 1].len() as int,
            k,
            flows[m - 1],
        )
    }
}

/// The paths as sequences of edges.
pub open spec fn path_views(paths: Seq<Vec<DirectedEdge>>) -> Seq<Seq<DirectedEdge>> {
    Seq::new(paths.len(), |i: int| paths[i]@)
}

/// The cost of the edge of a row under its routed flow: the first derivative of the delay.
pub open spec fn refreshed_cost(row: LedgerRow, p: int) -> u64 {
    first_derivative(row_total_x(row) as int, row.edge.capacity as int, p)
}

/// The rows with, in the first `n` of them, the cost of the copy of the edge refreshed.
pub open spec fn rows_refreshed(rows: Seq<LedgerRow>, n: int, p: int) -> Seq<LedgerRow> {
    Seq::new(
        rows.len(),
        |i: int|
            if i < n {
                LedgerRow {
                    edge: DirectedEdge { cost: refreshed_cost(rows[i], p), ..rows[i].edge },
                    flows: rows[i].flows,
                }
            } else {
                rows[i]
            },
    )
}

/// The adjacency lists after the edges of the first `n` rows got their refreshed cost.
pub open spec fn graph_refreshed(adj: Seq<Seq<DirectedEdge>>, rows: Seq<LedgerRow>, n: int, p: int) -> Seq<
    Seq<DirectedEdge>,
>
    decreases n,
{
    if n <= 0 {
        adj
    } else {
        with_cost(
            graph_refreshed(adj, rows, n - 1, p),
            rows[n - 1].edge.v as int,
            rows[n - 1].edge.w as int,
            refreshed_cost(rows[n - 1], p),
        )
    }
}

/// The first derivative of the delay on the edge `e` under the routed flow that the rows
/// hold for it. An edge without a row carries no flow.
pub open spec fn edge_first_derivative(rows: Seq<LedgerRow>, e: DirectedEdge, p: int) -> u64 {
    first_derivative(ledger_total_x(rows, e.v as int, e.w as int) as int, e.capacity as int, p)
}

/// The second derivative of the delay on the edge `e` under the routed flow of commodity
/// `k` alone. An edge without a row carries no flow.
pub open spec fn edge_second_derivative(rows: Seq<LedgerRow>, e: DirectedEdge, k: int, p: int) -> u64 {
    second_derivative(ledger_x(rows, e.v as int, e.w as int, k) as int, e.capacity as int, p)
}

/// The sum of the first derivatives over the first `n` edges of `path`.
pub open spec fn path_first_derivative(rows: Seq<LedgerRow>, path: Seq<DirectedEdge>, n: int, p: int) -> nat
    decreases n,
{
    if n <= 0 {
        0
    } else {
        path_first_derivative(rows, path, n - 1, p) + edge_first_derivative(rows, path[n - 1], p) as nat
    }
}

/// The sum of the second derivatives over the first `n` edges of `edges`.
pub open spec fn path_second_derivative(
    rows: Seq<LedgerRow>,
    edges: Seq<DirectedEdge>,
    n: int,
    k: int,
    p: int,
) -> nat
    decreases n,
{
    if n <= 0 {
        0
    } else {
        path_second_derivative(rows, edges, n - 1, k, p) + edge_second_derivative(
            rows,
            edges[n - 1],
            k,
            p,
        ) as nat
    }
}

/// The sum, over the first `n` edges of `path`, of the first derivative of the delay that
/// the flow `x` would have on each.
pub open spec fn path_first_derivative_at(path: Seq<DirectedEdge>, n: int, x: int, p: int) -> nat
    decreases n,
{
    if n <= 0 {
        0
    } else {
        path_first_derivative_at(path, n - 1, x, p) + first_derivative(
            x,
            path[n - 1].capacity as int,
            p,
        ) as nat
    }
}

/// The sum over the first `n` rows of the delay under the routed flow.
pub open spec fn total_delay_x(rows: Seq<LedgerRow>, n: int, p: int) -> nat
    decreases n,
{
    if n <= 0 {
        0
    } else {
        total_delay_x(rows, n - 1, p) + delay_value(
            row_total_x(rows[n - 1]) as int,
            rows[n - 1].edge.capacity as int,
            p,
        ) as nat
    }
}

/// The sum over the first `n` rows of the delay under the shortest-path flow.
pub open spec fn total_delay_y(rows: Seq<LedgerRow>, n: int, p: int) -> nat
    decreases n,
{
    if n <= 0 {
        0
    } else {
        total_delay_y(rows, n - 1, p) + delay_value(
            row_total_y(rows[n - 1]) as int,
            rows[n - 1].edge.capacity as int,
            p,
        ) as nat
    }
}

/// The rows after commodity `k` lost its shortest-path flow wherever it was recorded.
pub open spec fn rows_without_y(rows: Seq<LedgerRow>, n: int, k: int) -> Seq<LedgerRow> {
    Seq::new(
        rows.len(),
        |i: int|
            if i < n && has_entry(rows[i].flows, k) {
                LedgerRow {
                    edge: rows[i].edge,
                    flows: flows_with(rows[i].flows, k, flow_x_of(rows[i].flows, k), 0),
                }
            } else {
                rows[i]
            },
    )
}

/// Whether the key of the edge of `a` comes before the key of the edge of `b` in the
/// order of strings.
pub open spec fn key_before(a: LedgerRow, b: LedgerRow) -> bool {
    text_before(
        edge_key(a.edge.v as int, a.edge.w as int),
        edge_key(b.edge.v as int, b.edge.w as int),
    )
}

/// The rows `sorted` with `row` put in before the rows at the end whose key comes after
/// its key.
pub open spec fn row_inserted(sorted: Seq<LedgerRow>, row: LedgerRow) -> Seq<LedgerRow>
    decreases sorted.len(),
{
    if sorted.len() == 0 {
        seq![row]
    } else if key_before(row, sorted.last()) {
        row_inserted(sorted.drop_last(), row).push(sorted.last())
    } else {
        sorted.push(row)
    }
}

/// The first `n` rows in the ascending order of the keys of their edges.
pub open spec fn rows_by_key(rows: Seq<LedgerRow>, n: int) -> Seq<LedgerRow>
    decreases n,
{
    if n <= 0 {
        Seq::empty()
    } else {
        row_inserted(rows_by_key(rows, n - 1), rows[n - 1])
    }
}

/// Whether no row has a key that comes before the key of a row in front of it.
pub open spec fn keys_ascend(rows: Seq<LedgerRow>) -> bool {
    forall|i: int, j: int|
        0 <= i < j < rows.len() ==> !key_before(#[trigger] rows[j], #[trigger] rows[i])
}

proof fn lemma_row_inserted(sorted: Seq<LedgerRow>, row: LedgerRow)
    requires
        keys_ascend(sorted),
    ensures
        keys_ascend(row_inserted(sorted, row)),
        row_inserted(sorted, row).len() == sorted.len() + 1,
        forall|x: LedgerRow| #[trigger]
            row_inserted(sorted, row).contains(x) <==> sorted.contains(x) || x == row,
    decreases sorted.len(),
{
    let r = row_inserted(sorted, row);
    if sorted.len() == 0 {
        assert forall|x: LedgerRow| #[trigger] r.contains(x) <==> sorted.contains(x) || x == row by {
            if x == row {
                assert(r[0] == x);
            }
        }
    } else if key_before(row, sorted.last()) {
        let init = sorted.drop_last();
        let last = sorted.last();
        let inner = row_inserted(init, row);
        assert forall|i: int, j: int| 0 <= i < j < init.len() implies !key_before(
            #[trigger] init[j],
            #[trigger] init[i],
        ) by {
            assert(init[i] == sorted[i] && init[j] == sorted[j]);
        }
        lemma_row_inserted(init, row);
        assert forall|x: LedgerRow| #[trigger] r.contains(x) <==> sorted.contains(x) || x == row by {
            if r.contains(x) {
                let i = choose|i: int| 0 <= i < r.len() && r[i] == x;
                if i < inner.len() {
                    assert(inner[i] == x);
                    assert(inner.contains(x));
                    if init.contains(x) {
                        let k = choose|k: int| 0 <= k < init.len() && init[k] == x;
                        assert(sorted[k] == x);
                    }
                } else {
                    assert(sorted[sorted.len() - 1] == x);
                }
            }
            if sorted.contains(x) {
                let k = choose|k: int| 0 <= k < sorted.len() && sorted[k] == x;
                if k < init.len() {
                    assert(init[k] == x);
                    assert(init.contains(x));
                    assert(inner.contains(x));
                    let i = choose|i: int| 0 <= i < inner.len() && inner[i] == x;
                    assert(r[i] == x);
                } else {
                    assert(r[r.len() - 1] == x);
                }
            }
            if x == row {
                assert(inner.contains(x));
                let i = choose|i: int| 0 <= i < inner.len() && inner[i] == x;
                assert(r[i] == x);
            }
        }
        assert forall|i: int, j: int| 0 <= i < j < r.len() implies !key_before(
            #[trigger] r[j],
            #[trigger] r[i],
        ) by {
            if j < inner.len() {
                assert(r[i] == inner[i] && r[j] == inner[j]);
            } else {
                assert(r[j] == last);
                assert(r[i] == inner[i]);
                assert(inner.contains(inner[i]));
                if inner[i] == row {
                    lemma_text_order_strict(
                        edge_key(row.edge.v as int, row.edge.w as int),
                        edge_key(last.edge.v as int, last.edge.w as int),
                    );
                } else {
                    assert(init.contains(inner[i]));
                    let k = choose|k: int| 0 <= k < init.len() && init[k] == inner[i];
                    assert(sorted[k] == inner[i]);
                    assert(!key_before(sorted[sorted.len() - 1], sorted[k]));
                }
            }
        }
    } else {
        let last = sorted.last();
        assert forall|x: LedgerRow| #[trigger] r.contains(x) <==> sorted.contains(x) || x == row by {
            if r.contains(x) {
                let i = choose|i: int| 0 <= i < r.len() && r[i] == x;
                if i < sorted.len() {
                    assert(sorted[i] == x);
                }
            }
            if sorted.contains(x) {
                let k = choose|k: int| 0 <= k < sorted.len() && sorted[k] == x;
                assert(r[k] == x);
            }
            if x == row {
                assert(r[r.len() - 1] == x);
            }
        }
        assert forall|i: int, j: int| 0 <= i < j < r.len() implies !key_before(
            #[trigger] r[j],
            #[trigger] r[i],
        ) by {
            if j < sorted.len() {
                assert(r[i] == sorted[i] && r[j] == sorted[j]);
            } else {
                assert(r[j] == row && r[i] == sorted[i]);
                if key_before(row, sorted[i]) {
                    lemma_text_order_carries(
                        edge_key(row.edge.v as int, row.edge.w as int),
                        edge_key(last.edge.v as int, last.edge.w as int),
                        edge_key(sorted[i].edge.v as int, sorted[i].edge.w as int),
                    );
                    if i < sorted.len() - 1 {
                        assert(!key_before(sorted[sorted.len() - 1], sorted[i]));
                    }
                }
            }
        }
    }
}

/// What `rows_by_key` gives: the first `n` rows, each of them and no other row, in an
/// order in which no key comes before the key of a row in front of it.
pub proof fn lemma_rows_by_key(rows: Seq<LedgerRow>, n: int)
    requires
        0 <= n <= rows.len(),
    ensures
        rows_by_key(rows, n).len() == n,
        keys_ascend(rows_by_key(rows, n)),
        forall|x: LedgerRow| #[trigger]
            rows_by_key(rows, n).contains(x) <==> rows.take(n).contains(x),
    decreases n,
{
    let r = rows_by_key(rows, n);
    let head = rows.take(n);
    if n > 0 {
        let before = rows_by_key(rows, n - 1);
        let shorter = rows.take(n - 1);
        lemma_rows_by_key(rows, n - 1);
        lemma_row_inserted(before, rows[n - 1]);
        assert forall|x: LedgerRow| #[trigger] r.contains(x) <==> head.contains(x) by {
            if head.contains(x) {
                let i = choose|i: int| 0 <= i < head.len() && head[i] == x;
                if i < n - 1 {
                    assert(shorter[i] == x);
                    assert(shorter.contains(x));
                }
            }
            if before.contains(x) {
                assert(shorter.contains(x));
                let i = choose|i: int| 0 <= i < shorter.len() && shorter[i] == x;
                assert(head[i] == x);
            }
            if x == rows[n - 1] {
                assert(head[n - 1] == x);
            }
        }
    } else {
        assert forall|x: LedgerRow| #[trigger] r.contains(x) <==> head.contains(x) by {
            assert(r.len() == 0);
            assert(head.len() == 0);
        }
    }
}

proof fn lemma_row_inserted_at(sorted: Seq<LedgerRow>, row: LedgerRow, pos: int)
    requires
        0 <= pos <= sorted.len(),
        forall|j: int| pos <= j < sorted.len() ==> key_before(row, #[trigger] sorted[j]),
        pos > 0 ==> !key_before(row, sorted[pos - 1]),
    ensures
        row_inserted(sorted, row) == sorted.insert(pos, row),
    decreases sorted.len(),
{
    if sorted.len() == 0 {
        assert(sorted.insert(pos, row) =~= seq![row]);
    } else if pos == sorted.len() {
        assert(sorted.insert(pos, row) =~= sorted.push(row));
    } else {
        let init = sorted.drop_last();
        assert(key_before(row, sorted[sorted.len() - 1]));
        assert forall|j: int| pos <= j < init.len() implies key_before(row, #[trigger] init[j]) by {
            assert(init[j] == sorted[j]);
        }
        if pos > 0 {
            assert(init[pos - 1] == sorted[pos - 1]);
        }
        lemma_row_inserted_at(init, row, pos);
        assert(init.insert(pos, row).push(sorted.last()) =~= sorted.insert(pos, row));
    }
}

/// The rows at the places that `order` names, in the order in which it names them.
pub open spec fn rows_picked(rows: Seq<LedgerRow>, order: Seq<usize>) -> Seq<LedgerRow> {
    Seq::new(order.len(), |j: int| rows[order[j] as int])
}

/// The first derivative of the delay under the routed flow, for each of the first `n`
/// rows.
pub open spec fn gradient_of(rows: Seq<LedgerRow>, n: int, p: int) -> Seq<u64> {
    Seq::new(n as nat, |i: int| refreshed_cost(rows[i], p))
}

/// The routed flow of all commodities together, for each of the first `n` rows.
pub open spec fn totals_x(rows: Seq<LedgerRow>, n: int) -> Seq<u64> {
    Seq::new(n as nat, |i: int| row_total_x(rows[i]))
}

/// The shortest-path flow of all commodities together, for each of the first `n` rows.
pub open spec fn totals_y(rows: Seq<LedgerRow>, n: int) -> Seq<u64> {
    Seq::new(n as nat, |i: int| row_total_y(rows[i]))
}

/// What `row_position` finds: the first row of the edge, if there is one.
pub proof fn lemma_row_position(rows: Seq<LedgerRow>, v: int, w: int)
    ensures
        0 <= row_position(rows, v, w) <= rows.len(),
        row_position(rows, v, w) < rows.len() ==> rows[row_position(rows, v, w)].edge.v == v
            && rows[row_position(rows, v, w)].edge.w == w,
        forall|j: int|
            0 <= j < row_position(rows, v, w) ==> !((#[trigger] rows[j]).edge.v == v && rows[j].edge.w
                == w),
    decreases rows.len(),
{
    if rows.len() > 0 && !(rows[0].edge.v == v && rows[0].edge.w == w) {
        let rest = rows.drop_first();
        lemma_row_position(rest, v, w);
        assert forall|j: int| 0 <= j < row_position(rows, v, w) implies !((
        #[trigger] rows[j]).edge.v == v && rows[j].edge.w == w) by {
            if j > 0 {
                assert(rows[j] == rest[j - 1]);
            }
        }
    }
}

/// `rows_put` keeps the rows well formed.
pub proof fn lemma_rows_put(rows: Seq<LedgerRow>, e: DirectedEdge, k: i32, x: Option<u64>, y: Option<
    u64,
>)
    requires
        rows_well_formed(rows),
    ensures
        rows_well_formed(rows_put(rows, e, k as int, x, y)),
{
    let i = row_position(rows, e.v as int, e.w as int);
    lemma_row_position(rows, e.v as int, e.w as int);
    let after = rows_put(rows, e, k as int, x, y);
    if i < rows.len() {
        let f = rows[i].flows;
        let new_x = if x is Some {
            x->0
        } else {
            flow_x_of(f, k as int)
        };
        let new_y = if y is Some {
            y->0
        } else {
            flow_y_of(f, k as int)
        };
        lemma_flows_with(f, k, new_x, new_y, 0);
        assert forall|a: int| 0 <= a < after.len() implies distinct_commodities(
            (#[trigger] after[a]).flows,
        ) by {
            if a != i {
                assert(after[a] == rows[a]);
            }
        }
        assert forall|a: int, b: int| 0 <= a < b < after.len() implies !((
        #[trigger] after[a]).edge.v == (#[trigger] after[b]).edge.v && after[a].edge.w
            == after[b].edge.w) by {
            assert(after[a].edge == rows[a].edge);
            assert(after[b].edge == rows[b].edge);
        }
    } else {
        assert forall|a: int| 0 <= a < after.len() implies distinct_commodities(
            (#[trigger] after[a]).flows,
        ) by {
            if a < rows.len() {
                assert(after[a] == rows[a]);
            }
        }
        assert forall|a: int, b: int| 0 <= a < b < after.len() implies !((
        #[trigger] after[a]).edge.v == (#[trigger] after[b]).edge.v && after[a].edge.w
            == after[b].edge.w) by {
            assert(after[a] == rows[a]);
            if b < rows.len() {
                assert(after[b] == rows[b]);
            }
        }
    }
}

/// The state of the projection method: its two parameters and the ledger that says how
/// much of each commodity every edge carries.
#[derive(Debug)]
pub struct ProjectionMethod {
    alpha: u32,
    p: u16,
    edge_commodity: Vec<EdgeFlowCommodities>,
}

impl ProjectionMethod {
    /// The rows of the ledger, in the order in which the edges first carried flow.
    pub closed spec fn view(&self) -> Seq<LedgerRow> {
        Seq::new(
            self.edge_commodity@.len(),
            |i: int|
                LedgerRow {
                    edge: self.edge_commodity@[i].spec_edge(),
                    flows: self.edge_commodity@[i].entries(),
                },
        )
    }

    /// The step size in thousandths.
    pub closed spec fn spec_alpha(&self) -> u32 {
        self.alpha
    }

    /// The threshold of the delay model in thousandths of the capacity.
    pub closed spec fn spec_p(&self) -> u16 {
        self.p
    }

    /// The threshold lies strictly between nothing and the whole capacity, and the ledger
    /// is well formed.
    pub open spec fn wf(&self) -> bool {
        &&& 0 < self.spec_p() < 1000
        &&& rows_well_formed(self@)
    }

    /// The state with an empty ledger, for the step size `alpha` in thousandths and the
    /// threshold `p` in thousandths of the capacity. A threshold that is not strictly
    /// between 0 and 1000 is refused.
    pub fn new(alpha: u32, p: u16) -> (r: Option<ProjectionMethod>)
        ensures
            (0 < p < 1000) == r.is_some(),
            r matches Some(m) ==> m.wf() && m.spec_alpha() == alpha && m.spec_p() == p && m@.len()
                == 0,
    {
        if p == 0 || p >= 1000 {
            None
        } else {
            Some(ProjectionMethod { alpha, p, edge_commodity: Vec::new() })
        }
    }

    /// The step size in thousandths.
    pub fn get_alpha(&self) -> (a: u32)
        ensures
            a == self.spec_alpha(),
    {
        self.alpha
    }

    fn find_row(&self, v: i32, w: i32) -> (i: usize)
        ensures
            i == row_position(self@, v as int, w as int),
            i <= self@.len(),
    {
        let mut i: usize = 0;
        proof {
            lemma_row_position(self@, v as int, w as int);
        }
        while i < self.edge_commodity.len()
            invariant
                i <= self.edge_commodity@.len(),
                self@.len() == self.edge_commodity@.len(),
                forall|j: int|
                    0 <= j < i ==> !((#[trigger] self@[j]).edge.v == v && self@[j].edge.w == w),
                0 <= row_position(self@, v as int, w as int) <= self@.len(),
                row_position(self@, v as int, w as int) < self@.len() ==> self@[row_position(
                    self@,
                    v as int,
                    w as int,
                )].edge.v == v && self@[row_position(self@, v as int, w as int)].edge.w == w,
                forall|j: int|
                    0 <= j < row_position(self@, v as int, w as int) ==> !((
                    #[trigger] self@[j]).edge.v == v && self@[j].edge.w == w),
            ensures
                i == row_position(self@, v as int, w as int),
                i <= self@.len(),
            decreases self.edge_commodity@.len() - i,
        {
            let e = self.edge_commodity[i].get_edge();
            assert(e == self@[i as int].edge);
            if e.v == v && e.w == w {
                break ;
            }
            i = i + 1;
        }
        i
    }

    fn put(&mut self, e: &DirectedEdge, k: i32, x: Option<u64>, y: Option<u64>)
        requires
            old(self).wf(),
            x is Some || y is Some,
        ensures
            final(self).wf(),
            final(self).spec_alpha() == old(self).spec_alpha(),
            final(self).spec_p() == old(self).spec_p(),
            final(self)@ == rows_put(old(self)@, *e, k as int, x, y),
    {
        let i = self.find_row(e.v, e.w);
        proof {
            lemma_rows_put(self@, *e, k, x, y);
        }
        if i < self.edge_commodity.len() {
            let ghost f = self.edge_commodity@[i as int].entries();
            assert(f == self@[i as int].flows);
            assert(distinct_commodities(f));
            match x {
                Some(flow) => {
                    self.edge_commodity[i].update_commodity_flow_x(&k, flow);
                },
                None => {},
            }
            let ghost f1 = self.edge_commodity@[i as int].entries();
            match y {
                Some(flow) => {
                    self.edge_commodity[i].update_commodity_flow_y(&k, flow);
                },
                None => {},
            }
            proof {
                let new_x = if x is Some {
                    x->0
                } else {
                    flow_x_of(f, k as int)
                };
                let new_y = if y is Some {
                    y->0
                } else {
                    flow_y_of(f, k as int)
                };
                lemma_put_twice(f, k, new_x, new_y);
                if x is Some {
                    assert(f1 == flows_with(f, k as int, new_x, flow_y_of(f, k as int)));
                } else {
                    assert(f1 == f);
                }
                assert(self.edge_commodity@[i as int].entries() == flows_with(
                    f,
                    k as int,
                    new_x,
                    new_y,
                ));
                assert(self@ =~= rows_put(old(self)@, *e, k as int, x, y));
            }
        } else {
            let new_x = match x {
                Some(flow) => flow,
                None => 0,
            };
            let new_y = match y {
                Some(flow) => flow,
                None => 0,
            };
            self.edge_commodity.push(EdgeFlowCommodities::new(*e, k, new_x, new_y));
            assert(self@ =~= rows_put(old(self)@, *e, k as int, x, y));
        }
    }
}

impl ProjectionMethod {
    fn refresh(&mut self, graph_adj: &mut EdgeWeightedDigraph)
        requires
            old(self).wf(),
            old(graph_adj).wf(),
        ensures
            final(self).wf(),
            final(graph_adj).wf(),
            final(self).spec_alpha() == old(self).spec_alpha(),
            final(self).spec_p() == old(self).spec_p(),
            final(self)@ == rows_refreshed(old(self)@, old(self)@.len() as int, old(self).spec_p() as int),
            final(graph_adj)@ == graph_refreshed(
                old(graph_adj)@,
                old(self)@,
                old(self)@.len() as int,
                old(self).spec_p() as int,
            ),
    {
        let n = self.edge_commodity.len();
        let mut i: usize = 0;
        proof {
            assert forall|j: int| 0 <= j < n implies (#[trigger] self.edge_commodity@[j]).wf() by {
                assert(distinct_commodities(self@[j].flows));
            }
            assert(self@ =~= rows_refreshed(old(self)@, 0, old(self).spec_p() as int));
        }
        while i < n
            invariant
                i <= n,
                n == old(self)@.len(),
                self@.len() == n,
                self.edge_commodity@.len() == n,
                old(self).wf(),
                graph_adj.wf(),
                self.alpha == old(self).alpha,
                self.p == old(self).p,
                forall|j: int| 0 <= j < n ==> (#[trigger] self.edge_commodity@[j]).wf(),
                self@ == rows_refreshed(old(self)@, i as int, old(self).spec_p() as int),
                graph_adj@ == graph_refreshed(
                    old(graph_adj)@,
                    old(self)@,
                    i as int,
                    old(self).spec_p() as int,
                ),
            decreases n - i,
        {
            let ghost before = self@;
            assert(before[i as int] == old(self)@[i as int]);
            let total = self.edge_commodity[i].get_total_flow_x();
            let edge = self.edge_commodity[i].get_edge();
            let cost = count_first_derivative(total, edge.capacity, self.p);
            graph_adj.update_edge(edge.v, edge.w, cost);
            let ghost mid = self.edge_commodity@;
            let slot = self.edge_commodity[i].get_edge_mut();
            slot.update_cost(cost);
            proof {
                let target = rows_refreshed(old(self)@, i + 1, old(self).spec_p() as int);
                assert forall|j: int| 0 <= j < n implies self@[j] == target[j] by {
                    if j != i {
                        assert(self.edge_commodity@[j] == mid[j]);
                        assert(self@[j] == before[j]);
                    }
                }
                assert(self@ =~= target);
                assert forall|j: int| 0 <= j < n implies (#[trigger] self.edge_commodity@[j]).wf() by {
                    if j != i {
                        assert(self.edge_commodity@[j] == mid[j]);
                    }
                }
            }
            i = i + 1;
        }
        proof {
            let rows = old(self)@;
            let after = self@;
            assert forall|a: int| 0 <= a < after.len() implies distinct_commodities(
                (#[trigger] after[a]).flows,
            ) by {
                assert(after[a].flows == rows[a].flows);
            }
            assert forall|a: int, b: int| 0 <= a < b < after.len() implies !((
            #[trigger] after[a]).edge.v == (#[trigger] after[b]).edge.v && after[a].edge.w
                == after[b].edge.w) by {
                assert(after[a].edge.v == rows[a].edge.v && after[a].edge.w == rows[a].edge.w);
                assert(after[b].edge.v == rows[b].edge.v && after[b].edge.w == rows[b].edge.w);
            }
        }
    }

    fn put_path(&mut self, path: &Vec<DirectedEdge>, k: i32, x: Option<u64>, y: Option<u64>)
        requires
            old(self).wf(),
            x is Some || y is Some,
        ensures
            final(self).wf(),
            final(self).spec_alpha() == old(self).spec_alpha(),
            final(self).spec_p() == old(self).spec_p(),
            final(self)@ == rows_put_path(old(self)@, path@, path@.len() as int, k as int, x, y),
    {
        let mut i: usize = 0;
        while i < path.len()
            invariant
                i <= path@.len(),
                self.wf(),
                x is Some || y is Some,
                self.spec_alpha() == old(self).spec_alpha(),
                self.spec_p() == old(self).spec_p(),
                self@ == rows_put_path(old(self)@, path@, i as int, k as int, x, y),
            decreases path@.len() - i,
        {
            self.put(&path[i], k, x, y);
            i = i + 1;
        }
    }

    fn add_path(&mut self, path: &Vec<DirectedEdge>, k: i32, flow: u64)
        requires
            old(self).wf(),
        ensures
            final(self).wf(),
            final(self).spec_alpha() == old(self).spec_alpha(),
            final(self).spec_p() == old(self).spec_p(),
            final(self)@ == rows_add_path(old(self)@, path@, path@.len() as int, k as int, flow),
    {
        let mut i: usize = 0;
        while i < path.len()
            invariant
                i <= path@.len(),
                self.wf(),
                self.spec_alpha() == old(self).spec_alpha(),
                self.spec_p() == old(self).spec_p(),
                self@ == rows_add_path(old(self)@, path@, i as int, k as int, flow),
            decreases path@.len() - i,
        {
            let e = &path[i];
            let r = self.find_row(e.v, e.w);
            let current = if r < self.edge_commodity.len() {
                self.edge_commodity[r].get_total_flow_by_commodity(&k)
            } else {
                0
            };
            self.put(e, k, Some(current.saturating_add(flow)), None);
            i = i + 1;
        }
    }

    /// Puts the whole demand `flow` of commodity `r_index` on the edges of
    /// `path_shortest`, as routed flow and as shortest-path flow, and gives every edge of
    /// the ledger, in the ledger and in the graph, the cost that its routed flow entails.
    pub fn set_first_commodity_to_graph(
        &mut self,
        r_index: i32,
        flow: u64,
        path_shortest: &Vec<DirectedEdge>,
        graph_adj: &mut EdgeWeightedDigraph,
    )
        requires
            old(self).wf(),
            old(graph_adj).wf(),
        ensures
            final(self).wf(),
            final(graph_adj).wf(),
            final(self).spec_alpha() == old(self).spec_alpha(),
            final(self).spec_p() == old(self).spec_p(),
            ({
                let recorded = rows_put_path(
                    old(self)@,
                    path_shortest@,
                    path_shortest@.len() as int,
                    r_index as int,
                    Some(flow),
                    Some(flow),
                );
                &&& final(self)@ == rows_refreshed(
                    recorded,
                    recorded.len() as int,
                    old(self).spec_p() as int,
                )
                &&& final(graph_adj)@ == graph_refreshed(
                    old(graph_adj)@,
                    recorded,
                    recorded.len() as int,
                    old(self).spec_p() as int,
                )
            }),
    {
        self.put_path(path_shortest, r_index, Some(flow), Some(flow));
        self.refresh(graph_adj);
    }

    /// Replaces the routed flow of `commodity` on the edges of `paths`: on each of these
    /// edges it becomes the sum of the flows of the paths through it, `flows` giving the
    /// flow of each path. Then every edge of the ledger gets, in the ledger and in the
    /// graph, the cost that its routed flow entails.
    pub fn update_edge_flow(
        &mut self,
        flows: &Vec<u64>,
        commodity: i32,
        graph_adj: &mut EdgeWeightedDigraph,
        paths: &Vec<Vec<DirectedEdge>>,
    )
        requires
            old(self).wf(),
            old(graph_adj).wf(),
            flows@.len() == paths@.len(),
        ensures
            final(self).wf(),
            final(graph_adj).wf(),
            final(self).spec_alpha() == old(self).spec_alpha(),
            final(self).spec_p() == old(self).spec_p(),
            ({
                let cleared = rows_cleared(
                    old(self)@,
                    path_views(paths@),
                    paths@.len() as int,
                    commodity as int,
                );
                let loaded = rows_loaded(
                    cleared,
                    path_views(paths@),
                    flows@,
                    paths@.len() as int,
                    commodity as int,
                );
                &&& final(self)@ == rows_refreshed(
                    loaded,
                    loaded.len() as int,
                    old(self).spec_p() as int,
                )
                &&& final(graph_adj)@ == graph_refreshed(
                    old(graph_adj)@,
                    loaded,
                    loaded.len() as int,
                    old(self).spec_p() as int,
                )
            }),
    {
        let mut i: usize = 0;
        while i < paths.len()
            invariant
                i <= paths@.len(),
                self.wf(),
                self.spec_alpha() == old(self).spec_alpha(),
                self.spec_p() == old(self).spec_p(),
                self@ == rows_cleared(old(self)@, path_views(paths@), i as int, commodity as int),
            decreases paths@.len() - i,
        {
            self.put_path(&paths[i], commodity, Some(0), None);
            i = i + 1;
        }
        let ghost cleared = self@;
        let mut j: usize = 0;
        while j < paths.len()
            invariant
                j <= paths@.len(),
                flows@.len() == paths@.len(),
                self.wf(),
                self.spec_alpha() == old(self).spec_alpha(),
                self.spec_p() == old(self).spec_p(),
                self@ == rows_loaded(cleared, path_views(paths@), flows@, j as int, commodity as int),
            decreases paths@.len() - j,
        {
            self.add_path(&paths[j], commodity, flows[j]);
            j = j + 1;
        }
        self.refresh(graph_adj);
    }

    /// Sets the shortest-path flow of `commodity` to `flow` on each of `edges`.
    pub fn update_edge_flow_y(&mut self, commodity: i32, flow: u64, edges: &Vec<DirectedEdge>)
        requires
            old(self).wf(),
        ensures
            final(self).wf(),
            final(self).spec_alpha() == old(self).spec_alpha(),
            final(self).spec_p() == old(self).spec_p(),
            final(self)@ == rows_put_path(
                old(self)@,
                edges@,
                edges@.len() as int,
                commodity as int,
                None,
                Some(flow),
            ),
    {
        self.put_path(edges, commodity, None, Some(flow));
    }

    /// Takes the shortest-path flow of `commodity` off every edge on which the commodity
    /// was recorded.
    pub fn clear_flow_y(&mut self, commodity: i32)
        requires
            old(self).wf(),
        ensures
            final(self).wf(),
            final(self).spec_alpha() == old(self).spec_alpha(),
            final(self).spec_p() == old(self).spec_p(),
            final(self)@ == rows_without_y(old(self)@, old(self)@.len() as int, commodity as int),
    {
        let n = self.edge_commodity.len();
        let mut i: usize = 0;
        proof {
            assert forall|j: int| 0 <= j < n implies (#[trigger] self.edge_commodity@[j]).wf() by {
                assert(distinct_commodities(self@[j].flows));
            }
            assert(self@ =~= rows_without_y(old(self)@, 0, commodity as int));
        }
        while i < n
            invariant
                i <= n,
                n == old(self)@.len(),
                self@.len() == n,
                self.edge_commodity@.len() == n,
                old(self).wf(),
                self.alpha == old(self).alpha,
                self.p == old(self).p,
                forall|j: int| 0 <= j < n ==> (#[trigger] self.edge_commodity@[j]).wf(),
                self@ == rows_without_y(old(self)@, i as int, commodity as int),
            decreases n - i,
        {
            let ghost before = self@;
            let ghost mid = self.edge_commodity@;
            assert(before[i as int] == old(self)@[i as int]);
            if self.edge_commodity[i].is_recorded(&commodity) {
                self.edge_commodity[i].update_commodity_flow_y(&commodity, 0);
            }
            proof {
                let target = rows_without_y(old(self)@, i + 1, commodity as int);
                assert forall|j: int| 0 <= j < n implies self@[j] == target[j] by {
                    if j != i {
                        assert(self.edge_commodity@[j] == mid[j]);
                        assert(self@[j] == before[j]);
                    }
                }
                assert(self@ =~= target);
                assert forall|j: int| 0 <= j < n implies (#[trigger] self.edge_commodity@[j]).wf() by {
                    if j != i {
                        assert(self.edge_commodity@[j] == mid[j]);
                    }
                }
            }
            i = i + 1;
        }
        proof {
            let rows = old(self)@;
            let after = self@;
            assert forall|a: int| 0 <= a < after.len() implies distinct_commodities(
                (#[trigger] after[a]).flows,
            ) by {
                assert(self.edge_commodity@[a].wf());
            }
            assert forall|a: int, b: int| 0 <= a < b < after.len() implies !((
            #[trigger] after[a]).edge.v == (#[trigger] after[b]).edge.v && after[a].edge.w
                == after[b].edge.w) by {
                assert(after[a].edge == rows[a].edge);
                assert(after[b].edge == rows[b].edge);
            }
        }
    }

    /// The routed flow of `commodity` on the edge that joins the same vertices as `edge`;
    /// zero where the ledger holds none.
    pub fn get_flow_of(&self, edge: &DirectedEdge, commodity: &i32) -> (flow: u64)
        requires
            self.wf(),
        ensures
            flow == ledger_x(self@, edge.v as int, edge.w as int, *commodity as int),
    {
        let r = self.find_row(edge.v, edge.w);
        if r < self.edge_commodity.len() {
            assert(self@[r as int].flows == self.edge_commodity@[r as int].entries());
            self.edge_commodity[r].get_total_flow_by_commodity(commodity)
        } else {
            0
        }
    }

    /// The routed flow of all commodities together on the edge that joins the same
    /// vertices as `edge`, capped at `u64::MAX`; zero where the ledger holds none.
    pub fn get_total_flow_of(&self, edge: &DirectedEdge) -> (flow: u64)
        requires
            self.wf(),
        ensures
            flow == ledger_total_x(self@, edge.v as int, edge.w as int),
    {
        let r = self.find_row(edge.v, edge.w);
        if r < self.edge_commodity.len() {
            assert(self@[r as int].flows == self.edge_commodity@[r as int].entries());
            self.edge_commodity[r].get_total_flow_x()
        } else {
            0
        }
    }

    /// The sum, over the edges of `path_edges`, of the first derivative of the delay under
    /// the routed flow of the edge, capped at `u64::MAX`. An edge that the ledger does not
    /// hold counts as an edge without flow.
    pub fn get_d_k_p(&self, commodity: &i32, path_edges: &Vec<DirectedEdge>) -> (d: u64)
        requires
            self.wf(),
        ensures
            d == capped(
                path_first_derivative(
                    self@,
                    path_edges@,
                    path_edges@.len() as int,
                    self.spec_p() as int,
                ),
            ),
    {
        let mut d: u64 = 0;
        let mut i: usize = 0;
        while i < path_edges.len()
            invariant
                i <= path_edges@.len(),
                self.wf(),
                d == capped(path_first_derivative(self@, path_edges@, i as int, self.spec_p() as int)),
            decreases path_edges@.len() - i,
        {
            d = d.saturating_add(self.get_derivative_one_edge(commodity, &path_edges[i]));
            i = i + 1;
        }
        d
    }

    fn get_derivative_one_edge(&self, commodity: &i32, edge: &DirectedEdge) -> (d: u64)
        requires
            self.wf(),
        ensures
            d == edge_first_derivative(self@, *edge, self.spec_p() as int),
    {
        let r = self.find_row(edge.v, edge.w);
        if r < self.edge_commodity.len() {
            assert(self@[r as int].flows == self.edge_commodity@[r as int].entries());
            let flow = self.edge_commodity[r].get_total_flow_x();
            count_first_derivative(flow, edge.capacity, self.p)
        } else {
            count_first_derivative(0, edge.capacity, self.p)
        }
    }

    /// The sum, over `path_edges`, of the second derivative of the delay under the routed
    /// flow of `commodity` alone, capped at `u64::MAX`. An edge that the ledger does not
    /// hold counts as an edge without flow.
    pub fn get_h_k_p(&self, commodity: &i32, path_edges: &Vec<DirectedEdge>) -> (h: u64)
        requires
            self.wf(),
        ensures
            h == capped(
                path_second_derivative(
                    self@,
                    path_edges@,
                    path_edges@.len() as int,
                    *commodity as int,
                    self.spec_p() as int,
                ),
            ),
    {
        let mut h: u64 = 0;
        let mut i: usize = 0;
        while i < path_edges.len()
            invariant
                i <= path_edges@.len(),
                self.wf(),
                h == capped(
                    path_second_derivative(
                        self@,
                        path_edges@,
                        i as int,
                        *commodity as int,
                        self.spec_p() as int,
                    ),
                ),
            decreases path_edges@.len() - i,
        {
            h = h.saturating_add(self.get_derivative_two_edge(commodity, &path_edges[i]));
            i = i + 1;
        }
        h
    }

    fn get_derivative_two_edge(&self, commodity: &i32, edge: &DirectedEdge) -> (d: u64)
        requires
            self.wf(),
        ensures
            d == edge_second_derivative(self@, *edge, *commodity as int, self.spec_p() as int),
    {
        let r = self.find_row(edge.v, edge.w);
        if r < self.edge_commodity.len() {
            assert(self@[r as int].flows == self.edge_commodity@[r as int].entries());
            let flow = self.edge_commodity[r].get_total_flow_by_commodity(commodity);
            count_second_derivative(flow, edge.capacity, self.p)
        } else {
            count_second_derivative(0, edge.capacity, self.p)
        }
    }

    /// The sum, over the edges of `path_edges`, of the first derivative of the delay that
    /// the flow `x` would have on the edge, capped at `u64::MAX`.
    pub fn get_d_k_p_new(&self, x: u64, path_edges: &Vec<DirectedEdge>) -> (d: u64)
        requires
            self.wf(),
        ensures
            d == capped(
                path_first_derivative_at(
                    path_edges@,
                    path_edges@.len() as int,
                    x as int,
                    self.spec_p() as int,
                ),
            ),
    {
        let mut d: u64 = 0;
        let mut i: usize = 0;
        while i < path_edges.len()
            invariant
                i <= path_edges@.len(),
                self.wf(),
                d == capped(path_first_derivative_at(path_edges@, i as int, x as int, self.spec_p() as int)),
            decreases path_edges@.len() - i,
        {
            d = d.saturating_add(count_first_derivative(x, path_edges[i].capacity, self.p));
            i = i + 1;
        }
        d
    }

    fn delay(&self, flow: u64, capacity: u32) -> (d: u64)
        requires
            self.wf(),
        ensures
            d == delay_value(flow as int, capacity as int, self.spec_p() as int),
    {
        count_delay_value(flow, capacity, self.p)
    }

    /// The total delay of the network under the routed flows: the sum over the edges of
    /// the ledger, capped at `u64::MAX`.
    pub fn get_delay_value_x(&self) -> (d: u64)
        requires
            self.wf(),
        ensures
            d == capped(total_delay_x(self@, self@.len() as int, self.spec_p() as int)),
    {
        let mut d: u64 = 0;
        let mut i: usize = 0;
        while i < self.edge_commodity.len()
            invariant
                i <= self.edge_commodity@.len(),
                self@.len() == self.edge_commodity@.len(),
                self.wf(),
                d == capped(total_delay_x(self@, i as int, self.spec_p() as int)),
            decreases self.edge_commodity@.len() - i,
        {
            assert(self@[i as int].flows == self.edge_commodity@[i as int].entries());
            let row = &self.edge_commodity[i];
            d = d.saturating_add(self.delay(row.get_total_flow_x(), row.get_edge().capacity));
            i = i + 1;
        }
        d
    }

    /// The total delay of the network under the shortest-path flows: the sum over the
    /// edges of the ledger, capped at `u64::MAX`.
    pub fn get_delay_value_y(&self) -> (d: u64)
        requires
            self.wf(),
        ensures
            d == capped(total_delay_y(self@, self@.len() as int, self.spec_p() as int)),
    {
        let mut d: u64 = 0;
        let mut i: usize = 0;
        while i < self.edge_commodity.len()
            invariant
                i <= self.edge_commodity@.len(),
                self@.len() == self.edge_commodity@.len(),
                self.wf(),
                d == capped(total_delay_y(self@, i as int, self.spec_p() as int)),
            decreases self.edge_commodity@.len() - i,
        {
            assert(self@[i as int].flows == self.edge_commodity@[i as int].entries());
            let row = &self.edge_commodity[i];
            d = d.saturating_add(self.delay(row.get_total_flow_y(), row.get_edge().capacity));
            i = i + 1;
        }
        d
    }

    /// The places of the rows of the ledger in the ascending order of the keys of their
    /// edges, the key of an edge being its two vertices in decimal with an underscore
    /// between them.
    pub fn key_order(&self) -> (order: Vec<usize>)
        ensures
            order@.len() == self@.len(),
            forall|j: int| 0 <= j < order@.len() ==> #[trigger] order@[j] < self@.len(),
            rows_picked(self@, order@) == rows_by_key(self@, self@.len() as int),
    {
        let n = self.edge_commodity.len();
        let mut keys: Vec<Vec<char>> = Vec::new();
        let mut i: usize = 0;
        while i < n
            invariant
                i <= n,
                n == self.edge_commodity@.len(),
                n == self@.len(),
                keys@.len() == i,
                forall|j: int|
                    0 <= j < i ==> (#[trigger] keys@[j])@ == edge_key(
                        self@[j].edge.v as int,
                        self@[j].edge.w as int,
                    ),
            decreases n - i,
        {
            let e = self.edge_commodity[i].get_edge();
            assert(e == self@[i as int].edge);
            keys.push(edge_key_text(e.v, e.w));
            i = i + 1;
        }
        let mut order: Vec<usize> = Vec::new();
        let mut k: usize = 0;
        assert(rows_picked(self@, order@) =~= rows_by_key(self@, 0));
        while k < n
            invariant
                k <= n,
                n == self@.len(),
                keys@.len() == n,
                forall|j: int|
                    0 <= j < n ==> (#[trigger] keys@[j])@ == edge_key(
                        self@[j].edge.v as int,
                        self@[j].edge.w as int,
                    ),
                order@.len() == k,
                forall|j: int| 0 <= j < order@.len() ==> #[trigger] order@[j] < n,
                rows_picked(self@, order@) == rows_by_key(self@, k as int),
            decreases n - k,
        {
            let ghost sorted = rows_picked(self@, order@);
            let ghost row = self@[k as int];
            let mut pos: usize = order.len();
            while pos > 0 && is_text_before(&keys[k], &keys[order[pos - 1]])
                invariant
                    pos <= order@.len(),
                    k < n,
                    n == self@.len(),
                    keys@.len() == n,
                    forall|j: int|
                        0 <= j < n ==> (#[trigger] keys@[j])@ == edge_key(
                            self@[j].edge.v as int,
                            self@[j].edge.w as int,
                        ),
                    forall|j: int| 0 <= j < order@.len() ==> #[trigger] order@[j] < n,
                    sorted == rows_picked(self@, order@),
                    row == self@[k as int],
                    forall|j: int| pos <= j < sorted.len() ==> key_before(row, #[trigger] sorted[j]),
                decreases pos,
            {
                assert(sorted[pos - 1] == self@[order@[pos - 1] as int]);
                pos = pos - 1;
            }
            proof {
                if pos > 0 {
                    assert(sorted[pos - 1] == self@[order@[pos - 1] as int]);
                }
                lemma_row_inserted_at(sorted, row, pos as int);
            }
            order.insert(pos, k);
            assert(rows_picked(self@, order@) =~= sorted.insert(pos as int, row));
            k = k + 1;
        }
        order
    }

    /// For each edge of the ledger, in the ascending order of the keys of the edges, the
    /// first derivative of the delay under the routed flow.
    pub fn get_delay_gradient(&self) -> (g: Vec<u64>)
        requires
            self.wf(),
        ensures
            g@ == gradient_of(
                rows_by_key(self@, self@.len() as int),
                self@.len() as int,
                self.spec_p() as int,
            ),
    {
        let order = self.key_order();
        let ghost sorted = rows_by_key(self@, self@.len() as int);
        let mut g: Vec<u64> = Vec::new();
        let mut i: usize = 0;
        while i < order.len()
            invariant
                i <= order@.len(),
                order@.len() == self@.len(),
                self@.len() == self.edge_commodity@.len(),
                self.wf(),
                forall|j: int| 0 <= j < order@.len() ==> #[trigger] order@[j] < self@.len(),
                rows_picked(self@, order@) == sorted,
                g@ == gradient_of(sorted, i as int, self.spec_p() as int),
            decreases order@.len() - i,
        {
            let r = order[i];
            assert(sorted[i as int] == self@[r as int]);
            assert(self@[r as int].flows == self.edge_commodity@[r as int].entries());
            let row = &self.edge_commodity[r];
            g.push(count_first_derivative(row.get_total_flow_x(), row.get_edge().capacity, self.p));
            assert(g@ =~= gradient_of(sorted, i + 1, self.spec_p() as int));
            i = i + 1;
        }
        g
    }

    /// For each edge of the ledger, in the ascending order of the keys of the edges, the
    /// routed flow of all commodities together.
    pub fn get_total_flow_vector_x(&self) -> (t: Vec<u64>)
        requires
            self.wf(),
        ensures
            t@ == totals_x(rows_by_key(self@, self@.len() as int), self@.len() as int),
    {
        let order = self.key_order();
        let ghost sorted = rows_by_key(self@, self@.len() as int);
        let mut t: Vec<u64> = Vec::new();
        let mut i: usize = 0;
        while i < order.len()
            invariant
                i <= order@.len(),
                order@.len() == self@.len(),
                self@.len() == self.edge_commodity@.len(),
                forall|j: int| 0 <= j < order@.len() ==> #[trigger] order@[j] < self@.len(),
                rows_picked(self@, order@) == sorted,
                t@ == totals_x(sorted, i as int),
            decreases order@.len() - i,
        {
            let r = order[i];
            assert(sorted[i as int] == self@[r as int]);
            assert(self@[r as int].flows == self.edge_commodity@[r as int].entries());
            t.push(self.edge_commodity[r].get_total_flow_x());
            assert(t@ =~= totals_x(sorted, i + 1));
            i = i + 1;
        }
        t
    }

    /// For each edge of the ledger, in the ascending order of the keys of the edges, the
    /// shortest-path flow of all commodities together.
    pub fn get_total_flow_vector_y(&self) -> (t: Vec<u64>)
        requires
            self.wf(),
        ensures
            t@ == totals_y(rows_by_key(self@, self@.len() as int), self@.len() as int),
    {
        let order = self.key_order();
        let ghost sorted = rows_by_key(self@, self@.len() as int);
        let mut t: Vec<u64> = Vec::new();
        let mut i: usize = 0;
        while i < order.len()
            invariant
                i <= order@.len(),
                order@.len() == self@.len(),
                self@.len() == self.edge_commodity@.len(),
                forall|j: int| 0 <= j < order@.len() ==> #[trigger] order@[j] < self@.len(),
                rows_picked(self@, order@) == sorted,
                t@ == totals_y(sorted, i as int),
            decreases order@.len() - i,
        {
            let r = order[i];
            assert(sorted[i as int] == self@[r as int]);
            assert(self@[r as int].flows == self.edge_commodity@[r as int].entries());
            t.push(self.edge_commodity[r].get_total_flow_y());
            assert(t@ =~= totals_y(sorted, i + 1));
            i = i + 1;
        }
        t
    }
}

proof fn lemma_put_twice(f: Seq<CommodityFlow>, k: i32, x: u64, y: u64)
    requires
        distinct_commodities(f),
    ensures
        flow_x_of(flows_with(f, k as int, x, flow_y_of(f, k as int)), k as int) == x,
        flows_with(flows_with(f, k as int, x, flow_y_of(f, k as int)), k as int, x, y)
            == flows_with(f, k as int, x, y),
{
    crate::utils_graph::lemma_entry_position(f, k as int);
    let g = flows_with(f, k as int, x, flow_y_of(f, k as int));
    lemma_flows_with(f, k, x, flow_y_of(f, k as int), 0);
    crate::utils_graph::lemma_entry_position(g, k as int);
    let i = crate::utils_graph::entry_position(f, k as int);
    assert(g[i].commodity == k);
    assert(crate::utils_graph::entry_position(g, k as int) == i);
    assert(flows_with(g, k as int, x, y) =~= flows_with(f, k as int, x, y));
}

proof fn lemma_position_is(rows: Seq<LedgerRow>, v: int, w: int, p: int)
    requires
        0 <= p <= rows.len(),
        p < rows.len() ==> rows[p].edge.v == v && rows[p].edge.w == w,
        forall|j: int| 0 <= j < p ==> !((#[trigger] rows[j]).edge.v == v && rows[j].edge.w == w),
    ensures
        row_position(rows, v, w) == p,
    decreases rows.len(),
{
    if rows.len() > 0 {
        if p == 0 {
        } else {
            let rest = rows.drop_first();
            assert(!(rows[0].edge.v == v && rows[0].edge.w == w));
            assert forall|j: int| 0 <= j < p - 1 implies !((#[trigger] rest[j]).edge.v == v
                && rest[j].edge.w == w) by {
                assert(rest[j] == rows[j + 1]);
            }
            if p < rows.len() {
                assert(rest[p - 1] == rows[p]);
            }
            lemma_position_is(rest, v, w, p - 1);
        }
    }
}

proof fn lemma_position_same_edges(a: Seq<LedgerRow>, b: Seq<LedgerRow>, v: int, w: int)
    requires
        a.len() == b.len(),
        forall|j: int|
            0 <= j < a.len() ==> (#[trigger] a[j]).edge.v == b[j].edge.v && a[j].edge.w == b[j].edge.w,
    ensures
        row_position(a, v, w) == row_position(b, v, w),
{
    lemma_row_position(a, v, w);
    let p = row_position(a, v, w);
    assert forall|j: int| 0 <= j < p implies !((#[trigger] b[j]).edge.v == v && b[j].edge.w == w) by {
        assert(a[j].edge.v == b[j].edge.v);
    }
    if p < a.len() {
        assert(a[p].edge.v == b[p].edge.v);
    }
    lemma_position_is(b, v, w, p);
}

/// What `rows_put` changes: the flows of the one commodity on the one edge that are
/// given, and nothing else.
pub proof fn lemma_put_pointwise(
    rows: Seq<LedgerRow>,
    e: DirectedEdge,
    k: i32,
    x: Option<u64>,
    y: Option<u64>,
    v: int,
    w: int,
    k2: int,
)
    requires
        rows_well_formed(rows),
    ensures
        rows_well_formed(rows_put(rows, e, k as int, x, y)),
        ledger_x(rows_put(rows, e, k as int, x, y), v, w, k2) == if v == e.v && w == e.w && k2 == k
            && x is Some {
            x->0
        } else {
            ledger_x(rows, v, w, k2)
        },
        ledger_y(rows_put(rows, e, k as int, x, y), v, w, k2) == if v == e.v && w == e.w && k2 == k
            && y is Some {
            y->0
        } else {
            ledger_y(rows, v, w, k2)
        },
{
    lemma_rows_put(rows, e, k, x, y);
    let after = rows_put(rows, e, k as int, x, y);
    let i = row_position(rows, e.v as int, e.w as int);
    lemma_row_position(rows, e.v as int, e.w as int);
    lemma_row_position(rows, v, w);
    let p = row_position(rows, v, w);
    if i < rows.len() {
        let f = rows[i].flows;
        let new_x = if x is Some {
            x->0
        } else {
            flow_x_of(f, k as int)
        };
        let new_y = if y is Some {
            y->0
        } else {
            flow_y_of(f, k as int)
        };
        lemma_flows_with(f, k, new_x, new_y, k2);
        assert forall|j: int| 0 <= j < rows.len() implies (#[trigger] rows[j]).edge.v
            == after[j].edge.v && rows[j].edge.w == after[j].edge.w by {}
        lemma_position_same_edges(rows, after, v, w);
        if v == e.v && w == e.w {
            assert(p == i);
        } else {
            if p < rows.len() {
                assert(after[p] == rows[p]);
            }
        }
    } else {
        let new_x = if x is Some {
            x->0
        } else {
            0
        };
        let new_y = if y is Some {
            y->0
        } else {
            0
        };
        let only = seq![CommodityFlow { commodity: k, x: new_x, y: new_y }];
        crate::utils_graph::lemma_entry_position(only, k2);
        assert(only[0].commodity == k);
        if v == e.v && w == e.w {
            assert forall|j: int| 0 <= j < rows.len() implies !((#[trigger] after[j]).edge.v == v
                && after[j].edge.w == w) by {
                assert(after[j] == rows[j]);
            }
            lemma_position_is(after, v, w, rows.len() as int);
            assert(after[rows.len() as int].flows == only);
        } else {
            assert forall|j: int| 0 <= j < p implies !((#[trigger] after[j]).edge.v == v
                && after[j].edge.w == w) by {
                assert(after[j] == rows[j]);
            }
            if p < rows.len() {
                assert(after[p] == rows[p]);
                lemma_position_is(after, v, w, p);
            } else {
                assert forall|j: int| 0 <= j < after.len() implies !((#[trigger] after[j]).edge.v
                    == v && after[j].edge.w == w) by {
                    if j < rows.len() {
                        assert(after[j] == rows[j]);
                    }
                }
                lemma_position_is(after, v, w, after.len() as int);
            }
        }
    }
}

/// What `rows_put_path` changes: for the one commodity, the given flows on the edges of
/// the path, and nothing else.
pub proof fn lemma_put_path_pointwise(
    rows: Seq<LedgerRow>,
    path: Seq<DirectedEdge>,
    n: int,
    k: i32,
    x: Option<u64>,
    y: Option<u64>,
    v: int,
    w: int,
    k2: int,
)
    requires
        rows_well_formed(rows),
        0 <= n <= path.len(),
    ensures
        rows_well_formed(rows_put_path(rows, path, n, k as int, x, y)),
        ledger_x(rows_put_path(rows, path, n, k as int, x, y), v, w, k2) == if k2 == k && x is Some
            && passes(path, n, v, w) > 0 {
            x->0
        } else {
            ledger_x(rows, v, w, k2)
        },
        ledger_y(rows_put_path(rows, path, n, k as int, x, y), v, w, k2) == if k2 == k && y is Some
            && passes(path, n, v, w) > 0 {
            y->0
        } else {
            ledger_y(rows, v, w, k2)
        },
    decreases n,
{
    if n > 0 {
        lemma_put_path_pointwise(rows, path, n - 1, k, x, y, v, w, k2);
        lemma_put_pointwise(
            rows_put_path(rows, path, n - 1, k as int, x, y),
            path[n - 1],
            k,
            x,
            y,
            v,
            w,
            k2,
        );
    }
}

proof fn lemma_capped_sum(a: nat, flow: nat, times: nat)
    ensures
        capped((capped(a + flow * times) + flow) as nat) == capped(a + flow * (times + 1)),
{
    assert(flow * (times + 1) == flow * times + flow) by (nonlinear_arith);
}

/// What `rows_add_path` changes: for the one commodity, the routed flow on every edge
/// grows by the flow as often as the path passes the edge; nothing else changes.
pub proof fn lemma_add_path_pointwise(
    rows: Seq<LedgerRow>,
    path: Seq<DirectedEdge>,
    n: int,
    k: i32,
    flow: u64,
    v: int,
    w: int,
    k2: int,
)
    requires
        rows_well_formed(rows),
        0 <= n <= path.len(),
    ensures
        rows_well_formed(rows_add_path(rows, path, n, k as int, flow)),
        ledger_x(rows_add_path(rows, path, n, k as int, flow), v, w, k2) == if k2 == k {
            capped((ledger_x(rows, v, w, k2) + flow as nat * passes(path, n, v, w)) as nat)
        } else {
            ledger_x(rows, v, w, k2)
        },
        ledger_y(rows_add_path(rows, path, n, k as int, flow), v, w, k2) == ledger_y(rows, v, w, k2),
    decreases n,
{
    if n > 0 {
        let before = rows_add_path(rows, path, n - 1, k as int, flow);
        let e = path[n - 1];
        lemma_add_path_pointwise(rows, path, n - 1, k, flow, v, w, k2);
        lemma_add_path_pointwise(rows, path, n - 1, k, flow, e.v as int, e.w as int, k as int);
        let grown = capped((rows_flow_x(before, e, k as int) + flow) as nat);
        lemma_put_pointwise(before, e, k, Some(grown), None, v, w, k2);
        if k2 == k && v == e.v && w == e.w {
            lemma_capped_sum(
                ledger_x(rows, v, w, k2) as nat,
                flow as nat,
                passes(path, n - 1, v, w),
            );
        }
    } else {
        assert(flow as nat * passes(path, n, v, w) == 0) by (nonlinear_arith)
            requires
                passes(path, n, v, w) == 0,
        ;
    }
}

/// What `rows_cleared` changes: the commodity loses its routed flow on the edges of the
/// paths; nothing else changes.
pub proof fn lemma_cleared_pointwise(
    rows: Seq<LedgerRow>,
    paths: Seq<Seq<DirectedEdge>>,
    m: int,
    k: i32,
    v: int,
    w: int,
    k2: int,
)
    requires
        rows_well_formed(rows),
        0 <= m <= paths.len(),
    ensures
        rows_well_formed(rows_cleared(rows, paths, m, k as int)),
        ledger_x(rows_cleared(rows, paths, m, k as int), v, w, k2) == if k2 == k && on_some_path(
            paths,
            m,
            v,
            w,
        ) {
            0
        } else {
            ledger_x(rows, v, w, k2)
        },
        ledger_y(rows_cleared(rows, paths, m, k as int), v, w, k2) == ledger_y(rows, v, w, k2),
    decreases m,
{
    if m > 0 {
        lemma_cleared_pointwise(rows, paths, m - 1, k, v, w, k2);
        lemma_put_path_pointwise(
            rows_cleared(rows, paths, m - 1, k as int),
            paths[m - 1],
            paths[m - 1].len() as int,
            k,
            Some(0),
            None,
            v,
            w,
            k2,
        );
    }
}

/// What `rows_loaded` changes: the routed flow of the commodity grows on every edge by
/// what the paths send over it; nothing else changes.
pub proof fn lemma_loaded_pointwise(
    rows: Seq<LedgerRow>,
    paths: Seq<Seq<DirectedEdge>>,
    flows: Seq<u64>,
    m: int,
    k: i32,
    v: int,
    w: int,
    k2: int,
)
    requires
        rows_well_formed(rows),
        0 <= m <= paths.len(),
        m <= flows.len(),
    ensures
        rows_well_formed(rows_loaded(rows, paths, flows, m, k as int)),
        ledger_x(rows_loaded(rows, paths, flows, m, k as int), v, w, k2) == if k2 == k {
            capped((ledger_x(rows, v, w, k2) + path_load(paths, flows, m, v, w)) as nat)
        } else {
            ledger_x(rows, v, w, k2)
        },
        ledger_y(rows_loaded(rows, paths, flows, m, k as int), v, w, k2) == ledger_y(rows, v, w, k2),
    decreases m,
{
    if m > 0 {
        lemma_loaded_pointwise(rows, paths, flows, m - 1, k, v, w, k2);
        lemma_add_path_pointwise(
            rows_loaded(rows, paths, flows, m - 1, k as int),
            paths[m - 1],
            paths[m - 1].len() as int,
            k,
            flows[m - 1],
            v,
            w,
            k2,
        );
    }
}

/// Refreshing the costs changes no flow.
pub proof fn lemma_refreshed_pointwise(rows: Seq<LedgerRow>, n: int, p: int, v: int, w: int, k2: int)
    requires
        rows_well_formed(rows),
    ensures
        rows_well_formed(rows_refreshed(rows, n, p)),
        ledger_x(rows_refreshed(rows, n, p), v, w, k2) == ledger_x(rows, v, w, k2),
        ledger_y(rows_refreshed(rows, n, p), v, w, k2) == ledger_y(rows, v, w, k2),
{
    let after = rows_refreshed(rows, n, p);
    assert forall|j: int| 0 <= j < rows.len() implies (#[trigger] rows[j]).edge.v == after[j].edge.v
        && rows[j].edge.w == after[j].edge.w by {}
    lemma_position_same_edges(rows, after, v, w);
    lemma_row_position(rows, v, w);
    assert forall|a: int| 0 <= a < after.len() implies distinct_commodities(
        (#[trigger] after[a]).flows,
    ) by {
        assert(after[a].flows == rows[a].flows);
    }
    assert forall|a: int, b: int| 0 <= a < b < after.len() implies !((#[trigger] after[a]).edge.v
        == (#[trigger] after[b]).edge.v && after[a].edge.w == after[b].edge.w) by {
        assert(after[a].edge.v == rows[a].edge.v && after[a].edge.w == rows[a].edge.w);
        assert(after[b].edge.v == rows[b].edge.v && after[b].edge.w == rows[b].edge.w);
    }
}

/// Taking the shortest-path flow of a commodity off the edges changes no routed flow,
/// and no shortest-path flow of another commodity.
pub proof fn lemma_without_y_pointwise(rows: Seq<LedgerRow>, n: int, k: i32, v: int, w: int, k2: int)
    requires
        rows_well_formed(rows),
        n >= rows.len(),
    ensures
        rows_well_formed(rows_without_y(rows, n, k as int)),
        ledger_x(rows_without_y(rows, n, k as int), v, w, k2) == ledger_x(rows, v, w, k2),
        ledger_y(rows_without_y(rows, n, k as int), v, w, k2) == if k2 == k {
            0
        } else {
            ledger_y(rows, v, w, k2)
        },
{
    let after = rows_without_y(rows, n, k as int);
    assert forall|j: int| 0 <= j < rows.len() implies (#[trigger] rows[j]).edge.v == after[j].edge.v
        && rows[j].edge.w == after[j].edge.w by {}
    lemma_position_same_edges(rows, after, v, w);
    lemma_row_position(rows, v, w);
    let i = row_position(rows, v, w);
    if i < rows.len() {
        let f = rows[i].flows;
        if has_entry(f, k as int) {
            lemma_flows_with(f, k, flow_x_of(f, k as int), 0, k2);
        }
    }
    assert forall|a: int| 0 <= a < after.len() implies distinct_commodities(
        (#[trigger] after[a]).flows,
    ) by {
        let f = rows[a].flows;
        if has_entry(f, k as int) {
            lemma_flows_with(f, k, flow_x_of(f, k as int), 0, 0);
        }
    }
    assert forall|a: int, b: int| 0 <= a < b < after.len() implies !((#[trigger] after[a]).edge.v
        == (#[trigger] after[b]).edge.v && after[a].edge.w == after[b].edge.w) by {
        assert(after[a].edge == rows[a].edge);
        assert(after[b].edge == rows[b].edge);
    }
}

/// What refreshing the costs leaves in the graph: the first edge between the vertices of
/// each of the first `n` rows has the cost that the routed flow of the row entails, and
/// every other edge is as it was.
pub proof fn lemma_graph_refreshed(
    adj: Seq<Seq<DirectedEdge>>,
    rows: Seq<LedgerRow>,
    n: int,
    p: int,
    v: int,
    j: int,
)
    requires
        rows_well_formed(rows),
        0 <= n <= rows.len(),
        0 <= v < adj.len(),
        0 <= j < adj[v].len(),
    ensures
        graph_refreshed(adj, rows, n, p).len() == adj.len(),
        graph_refreshed(adj, rows, n, p)[v].len() == adj[v].len(),
        graph_refreshed(adj, rows, n, p)[v][j] == if j == first_to(adj[v], adj[v][j].w as int)
            && row_position(rows, v, adj[v][j].w as int) < n {
            DirectedEdge {
                cost: refreshed_cost(rows[row_position(rows, v, adj[v][j].w as int)], p),
                ..adj[v][j]
            }
        } else {
            adj[v][j]
        },
    decreases n,
{
    lemma_row_position(rows, v, adj[v][j].w as int);
    if n > 0 {
        let before = graph_refreshed(adj, rows, n - 1, p);
        let row = rows[n - 1];
        let vn = row.edge.v as int;
        let wn = row.edge.w as int;
        let w = adj[v][j].w as int;
        lemma_graph_refreshed(adj, rows, n - 1, p, v, j);
        lemma_with_cost_pointwise(before, vn, wn, refreshed_cost(row, p), v, j);
        lemma_row_position(rows, v, w);
        lemma_first_to(adj[v], w);
        assert forall|i: int| 0 <= i < adj[v].len() implies (#[trigger] before[v][i]).w
            == adj[v][i].w by {
            lemma_graph_refreshed(adj, rows, n - 1, p, v, i);
        }
        if v == vn {
            lemma_first_to_same_ends(before[v], adj[v], wn);
            lemma_first_to(adj[v], wn);
            if j == first_to(adj[v], wn) {
                assert(w == wn);
                assert forall|i: int| 0 <= i < n - 1 implies !((#[trigger] rows[i]).edge.v == v
                    && rows[i].edge.w == w) by {}
                lemma_position_is(rows, v, w, n - 1);
            } else if w == wn {
                assert(j != first_to(adj[v], w));
            }
        }
        if !(v == vn && w == wn) {
            let pos = row_position(rows, v, w);
            assert(pos != n - 1);
        }
    }
}

/// Paths that do not go from `v` to `w` send nothing there.
pub proof fn lemma_no_path_no_load(
    paths: Seq<Seq<DirectedEdge>>,
    flows: Seq<u64>,
    m: int,
    v: int,
    w: int,
)
    requires
        !on_some_path(paths, m, v, w),
    ensures
        path_load(paths, flows, m, v, w) == 0,
    decreases m,
{
    if m > 0 {
        lemma_no_path_no_load(paths, flows, m - 1, v, w);
        assert(flows[m - 1] as nat * 0nat == 0) by (nonlinear_arith);
    }
}

/// What `update_edge_flow` leaves in the ledger: on every edge of the paths, the routed
/// flow of the commodity is what the paths send over the edge; on every other edge, and
/// for every other commodity, the routed flow is what it was. No shortest-path flow
/// changes.
pub proof fn lemma_update_edge_flow(
    rows: Seq<LedgerRow>,
    paths: Seq<Seq<DirectedEdge>>,
    flows: Seq<u64>,
    k: i32,
    p: int,
    v: int,
    w: int,
    k2: int,
)
    requires
        rows_well_formed(rows),
        flows.len() == paths.len(),
    ensures
        ({
            let m = paths.len() as int;
            let loaded = rows_loaded(rows_cleared(rows, paths, m, k as int), paths, flows, m, k as int);
            let after = rows_refreshed(loaded, loaded.len() as int, p);
            &&& rows_well_formed(after)
            &&& ledger_x(after, v, w, k2) == if k2 == k && on_some_path(paths, m, v, w) {
                capped(path_load(paths, flows, m, v, w))
            } else {
                ledger_x(rows, v, w, k2)
            }
            &&& ledger_y(after, v, w, k2) == ledger_y(rows, v, w, k2)
        }),
{
    let m = paths.len() as int;
    let cleared = rows_cleared(rows, paths, m, k as int);
    let loaded = rows_loaded(cleared, paths, flows, m, k as int);
    lemma_cleared_pointwise(rows, paths, m, k, v, w, k2);
    lemma_loaded_pointwise(cleared, paths, flows, m, k, v, w, k2);
    lemma_refreshed_pointwise(loaded, loaded.len() as int, p, v, w, k2);
    if !on_some_path(paths, m, v, w) {
        lemma_no_path_no_load(paths, flows, m, v, w);
    }
}

} // verus!
