use netflow::graph::DirectedEdge;
use netflow::graph::EdgeWeightedDigraph;
use netflow::projection_method::ProjectionMethod;
use netflow::topology::Link;
use netflow::topology::Network;
use netflow::utils_graph::edge_key_text;
use netflow::utils_graph::is_text_before;

fn edge(v: i32, w: i32, capacity: u32, cost: u64) -> DirectedEdge {
    DirectedEdge { v, w, capacity, cost }
}

fn triangle() -> EdgeWeightedDigraph {
    let links = vec![
        Link { source: 0, target: 1, capacity: 20_000, cost: 5 },
        Link { source: 1, target: 2, capacity: 10_000, cost: 6 },
        Link { source: 0, target: 2, capacity: 30_000, cost: 7 },
    ];
    let mut g = EdgeWeightedDigraph::default_graph();
    assert!(g.graph_from_links(&Network { node_count: 3, links, demands: vec![] }, true).is_ok());
    g
}

fn costs(g: &EdgeWeightedDigraph) -> Vec<Vec<(i32, i32, u64)>> {
    let mut out = vec![];
    for v in 0..g.get_v_count() as usize {
        let bag = g.edge_list(v);
        let mut row = vec![];
        let mut it = bag.iter();
        while let Some(e) = it.next() {
            row.push((e.v, e.w, e.cost));
        }
        out.push(row);
    }
    out
}

fn via_one() -> Vec<DirectedEdge> {
    vec![edge(1, 2, 10_000, 6), edge(0, 1, 20_000, 5)]
}

fn direct() -> Vec<DirectedEdge> {
    vec![edge(0, 2, 30_000, 7)]
}

#[test]
fn threshold_must_lie_strictly_between_nothing_and_all() {
    assert!(ProjectionMethod::new(65, 0).is_none());
    assert!(ProjectionMethod::new(65, 1000).is_none());
    assert!(ProjectionMethod::new(65, u16::MAX).is_none());
    assert!(ProjectionMethod::new(65, 1).is_some());
    assert!(ProjectionMethod::new(0, 999).is_some());
    assert_eq!(ProjectionMethod::new(65, 990).unwrap().get_alpha(), 65);
}

#[test]
fn empty_ledger_has_no_delay() {
    let m = ProjectionMethod::new(65, 990).unwrap();
    assert_eq!(m.get_delay_value_x(), 0);
    assert_eq!(m.get_delay_value_y(), 0);
    assert!(m.get_delay_gradient().is_empty());
    assert!(m.get_total_flow_vector_x().is_empty());
    assert!(m.get_total_flow_vector_y().is_empty());
    // edges that the ledger does not hold count as edges without flow:
    // 1/10000 + 1/20000 and 2/10000^2 + 2/20000^2
    assert_eq!(m.get_d_k_p(&0, &via_one()), 150_000);
    assert_eq!(m.get_h_k_p(&0, &via_one()), 25);
    let m = ProjectionMethod::new(65, 500).unwrap();
    let short = vec![edge(0, 1, 4, 0)];
    assert_eq!(m.get_d_k_p(&0, &short), 250_000_000);
    assert_eq!(m.get_h_k_p(&0, &short), 125_000_000);
}

#[test]
fn first_commodity_sets_flows_and_costs() {
    let mut g = triangle();
    let mut m = ProjectionMethod::new(65, 990).unwrap();
    m.set_first_commodity_to_graph(0, 4000, &via_one(), &mut g);
    assert_eq!(m.get_total_flow_vector_x(), vec![4000, 4000]);
    assert_eq!(m.get_total_flow_vector_y(), vec![4000, 4000]);
    // edge 0_1: 20000 / 16000^2, edge 1_2: 10000 / 6000^2
    assert_eq!(m.get_delay_gradient(), vec![78_125, 277_777]);
    assert_eq!(
        costs(&g),
        vec![
            vec![(0, 2, 7), (0, 1, 78_125)],
            vec![(1, 2, 277_777), (1, 0, 5)],
            vec![(2, 0, 7), (2, 1, 6)],
        ]
    );
}

#[test]
fn second_commodity_shares_an_edge() {
    let mut g = triangle();
    let mut m = ProjectionMethod::new(65, 990).unwrap();
    m.set_first_commodity_to_graph(0, 4000, &via_one(), &mut g);
    m.set_first_commodity_to_graph(1, 6000, &vec![edge(1, 2, 10_000, 6)], &mut g);
    assert_eq!(m.get_total_flow_vector_x(), vec![4000, 10_000]);
    assert_eq!(m.get_total_flow_vector_y(), vec![4000, 10_000]);
    assert_eq!(m.get_delay_gradient(), vec![78_125, 3_000_000_000]);
    assert_eq!(m.get_d_k_p(&0, &via_one()), 3_000_078_125);
    assert_eq!(m.get_d_k_p(&7, &via_one()), 3_000_078_125);
    // the direct edge carries nothing yet: 1/30000
    assert_eq!(m.get_d_k_p(&0, &direct()), 33_333);
    assert_eq!(m.get_h_k_p(&0, &via_one()), 101);
    assert_eq!(m.get_h_k_p(&1, &via_one()), 317);
    assert_eq!(m.get_h_k_p(&2, &via_one()), 25);
    assert_eq!(m.get_delay_value_x(), 299_250_000_000);
    assert_eq!(m.get_delay_value_y(), 299_250_000_000);
    assert_eq!(m.get_d_k_p_new(5000, &via_one()), 488_888);
    assert_eq!(costs(&g)[1], vec![(1, 2, 3_000_000_000), (1, 0, 5)]);
}

#[test]
fn update_edge_flow_adds_up_the_paths_through_an_edge() {
    let mut g = triangle();
    let mut m = ProjectionMethod::new(65, 990).unwrap();
    m.set_first_commodity_to_graph(0, 4000, &via_one(), &mut g);
    m.set_first_commodity_to_graph(1, 6000, &vec![edge(1, 2, 10_000, 6)], &mut g);
    let third = vec![edge(1, 2, 1, 1), edge(0, 1, 1, 1), edge(2, 0, 9, 9), edge(0, 2, 3, 3)];
    m.update_edge_flow(&vec![1000, 3000, 500], 0, &mut g, &vec![via_one(), direct(), third]);
    // in the order of the keys 0_1, 0_2, 1_2, 2_0
    assert_eq!(m.get_total_flow_vector_x(), vec![1500, 3500, 7500, 500]);
    assert_eq!(m.get_total_flow_vector_y(), vec![4000, 0, 10_000, 0]);
    assert_eq!(m.get_delay_gradient(), vec![58_436, 42_719, 1_600_000, 12_126_790_123_456_790]);
    assert_eq!(m.key_order(), vec![1, 2, 0, 3]);
    assert_eq!(
        costs(&g),
        vec![
            vec![(0, 2, 42_719), (0, 1, 58_436)],
            vec![(1, 2, 1_600_000), (1, 0, 5)],
            vec![(2, 0, 12_126_790_123_456_790), (2, 1, 6)],
        ]
    );
}

#[test]
fn shortest_path_flow_is_set_and_cleared_per_commodity() {
    let mut g = triangle();
    let mut m = ProjectionMethod::new(65, 990).unwrap();
    m.set_first_commodity_to_graph(0, 4000, &via_one(), &mut g);
    m.set_first_commodity_to_graph(1, 6000, &vec![edge(1, 2, 10_000, 6)], &mut g);
    m.update_edge_flow_y(0, 77, &direct());
    assert_eq!(m.get_total_flow_vector_y(), vec![4000, 77, 10_000]);
    assert_eq!(m.get_total_flow_vector_x(), vec![4000, 0, 10_000]);
    m.clear_flow_y(0);
    assert_eq!(m.get_total_flow_vector_y(), vec![0, 0, 6000]);
    assert_eq!(m.get_total_flow_vector_x(), vec![4000, 0, 10_000]);
    m.clear_flow_y(5);
    assert_eq!(m.get_total_flow_vector_y(), vec![0, 0, 6000]);
    assert_eq!(costs(&g)[0], vec![(0, 2, 7), (0, 1, 78_125)]);
}

#[test]
fn a_shared_edge_carries_the_sum_and_a_second_update_replaces() {
    let links = vec![
        Link { source: 0, target: 1, capacity: 0, cost: 1_000_000 },
        Link { source: 1, target: 2, capacity: 0, cost: 1_000_000 },
        Link { source: 1, target: 3, capacity: 0, cost: 1_000_000 },
    ];
    let mut g = EdgeWeightedDigraph::default_graph();
    assert!(g.graph_from_links(&Network { node_count: 4, links, demands: vec![] }, false).is_ok());
    let mut m = ProjectionMethod::new(65, 500).unwrap();
    let e = DirectedEdge::get_empty_edge;
    let paths = vec![vec![e(1, 2), e(0, 1)], vec![e(1, 3), e(0, 1)]];
    m.update_edge_flow(&vec![3, 4], 0, &mut g, &paths);
    // in the order of the keys 0_1, 1_2, 1_3
    assert_eq!(m.get_total_flow_vector_x(), vec![7, 3, 4]);
    m.update_edge_flow(&vec![3, 4], 0, &mut g, &paths);
    assert_eq!(m.get_total_flow_vector_x(), vec![7, 3, 4]);
    assert_eq!(m.get_delay_gradient(), vec![u64::MAX, u64::MAX, u64::MAX]);
}

#[test]
fn vectors_come_in_the_order_of_the_keys_as_text() {
    let mut g = EdgeWeightedDigraph::default_graph();
    assert!(g.graph_from_links(&Network { node_count: 12, links: vec![], demands: vec![] }, false).is_ok());
    let mut m = ProjectionMethod::new(65, 500).unwrap();
    let ends = [(2, 3), (10, 2), (1, 11), (1, 2), (10, 11)];
    for (k, (v, w)) in ends.iter().enumerate() {
        m.update_edge_flow(&vec![k as u64 + 1], k as i32, &mut g, &vec![vec![edge(*v, *w, 9, 0)]]);
    }
    // 10_11 < 10_2 < 1_11 < 1_2 < 2_3
    assert_eq!(m.key_order(), vec![4, 1, 2, 3, 0]);
    assert_eq!(m.get_total_flow_vector_x(), vec![5, 2, 3, 4, 1]);
}

#[test]
fn an_edge_key_is_the_two_ends_in_decimal_with_a_line_between() {
    assert_eq!(edge_key_text(0, 1), vec!['0', '_', '1']);
    assert_eq!(edge_key_text(10, 2), vec!['1', '0', '_', '2']);
    assert_eq!(edge_key_text(305, 4711), vec!['3', '0', '5', '_', '4', '7', '1', '1']);
}

#[test]
fn keys_are_ordered_as_text_and_not_as_numbers() {
    let a = edge_key_text(10, 2);
    let b = edge_key_text(9, 0);
    assert!(is_text_before(&a, &b));
    assert!(!is_text_before(&b, &a));
    // The line comes after every digit.
    let c = edge_key_text(1, 2);
    assert!(is_text_before(&a, &c));
    assert!(!is_text_before(&c, &a));
    // A text comes after each of its own beginnings, and not before itself.
    let d = edge_key_text(1, 20);
    assert!(is_text_before(&c, &d));
    assert!(!is_text_before(&d, &c));
    assert!(!is_text_before(&c, &c));
}
