use netflow::graph::DirectedEdge;
use netflow::graph::EdgeWeightedDigraph;
use netflow::topology::Link;
use netflow::topology::Network;
use netflow::utils_graph::find_all_path;
use netflow::utils_graph::path_vertices;
use netflow::utils_graph::symmetric_difference;
use netflow::utils_graph::vec_edge_to_str;
use netflow::utils_graph::EdgeFlowCommodities;

fn edge(v: i32, w: i32) -> DirectedEdge {
    DirectedEdge { v, w, capacity: 100, cost: 1 }
}

#[test]
fn new_entry_holds_one_commodity() {
    let e = EdgeFlowCommodities::new(edge(1, 2), 4, 30, 40);
    assert_eq!(e.get_edge().v, 1);
    assert_eq!(e.get_edge().w, 2);
    assert!(e.is_recorded(&4));
    assert!(!e.is_recorded(&5));
    assert_eq!(e.get_total_flow_by_commodity(&4), 30);
    assert_eq!(e.get_total_flow_by_commodity(&5), 0);
    assert_eq!(e.get_total_flow_x(), 30);
    assert_eq!(e.get_total_flow_y(), 40);
}

#[test]
fn total_flow_is_the_sum_over_the_commodities() {
    let mut e = EdgeFlowCommodities::new(edge(1, 2), 0, 5, 1);
    let mut x = vec![5u64, 0, 0, 0, 0];
    let mut y = vec![1u64, 0, 0, 0, 0];
    let updates = [(1, 7u64, true), (2, 9, false), (1, 3, true), (4, 11, true), (0, 2, false), (2, 6, true), (4, 0, true)];
    for (k, flow, is_x) in updates {
        if is_x {
            e.update_commodity_flow_x(&k, flow);
            x[k as usize] = flow;
        } else {
            e.update_commodity_flow_y(&k, flow);
            y[k as usize] = flow;
        }
        let mut sum = 0;
        for c in 0..5 {
            assert_eq!(e.get_total_flow_by_commodity(&c), x[c as usize]);
            sum += e.get_total_flow_by_commodity(&c);
        }
        assert_eq!(e.get_total_flow_x(), sum);
        assert_eq!(e.get_total_flow_x(), x.iter().sum::<u64>());
        assert_eq!(e.get_total_flow_y(), y.iter().sum::<u64>());
    }
    assert!(!e.is_recorded(&3));
    assert!(e.is_recorded(&2));
}

#[test]
fn updating_one_flow_keeps_the_other() {
    let mut e = EdgeFlowCommodities::new(edge(1, 2), 0, 5, 6);
    e.update_commodity_flow_x(&0, 8);
    assert_eq!((e.get_total_flow_x(), e.get_total_flow_y()), (8, 6));
    e.update_commodity_flow_y(&0, 9);
    assert_eq!((e.get_total_flow_x(), e.get_total_flow_y()), (8, 9));
    e.update_commodity_flow_y(&1, 3);
    assert_eq!((e.get_total_flow_x(), e.get_total_flow_y()), (8, 12));
    assert_eq!(e.get_total_flow_by_commodity(&1), 0);
    e.update_commodity_flow_x(&-2, 4);
    assert_eq!((e.get_total_flow_x(), e.get_total_flow_y()), (12, 12));
}

#[test]
fn totals_are_capped() {
    let mut e = EdgeFlowCommodities::new(edge(1, 2), 0, u64::MAX - 1, u64::MAX);
    e.update_commodity_flow_x(&1, 1);
    assert_eq!(e.get_total_flow_x(), u64::MAX);
    e.update_commodity_flow_x(&2, 5);
    e.update_commodity_flow_y(&2, 5);
    assert_eq!(e.get_total_flow_x(), u64::MAX);
    assert_eq!(e.get_total_flow_y(), u64::MAX);
}

#[test]
fn the_cost_of_the_copy_can_be_changed() {
    let mut e = EdgeFlowCommodities::new(edge(1, 2), 0, 5, 6);
    e.get_edge_mut().update_cost(99);
    assert_eq!(e.get_edge().cost, 99);
    assert_eq!(e.get_total_flow_x(), 5);
}

#[test]
fn symmetric_difference_of_numbers() {
    assert_eq!(symmetric_difference(vec![1, 2, 3, 4], vec![3, 4, 5, 6]), vec![1, 2, 5, 6]);
    assert_eq!(symmetric_difference(vec![1, 1, 2, 2], vec![2, 3, 3]), vec![1, 3]);
    assert_eq!(symmetric_difference(Vec::<u8>::new(), vec![]), Vec::<u8>::new());
    assert_eq!(symmetric_difference(vec![7, 8], vec![]), vec![7, 8]);
    assert_eq!(symmetric_difference(vec![], vec![8, 7, 8]), vec![8, 7]);
    assert_eq!(symmetric_difference(vec![5, 6], vec![6, 5]), Vec::<i32>::new());
    assert_eq!(
        symmetric_difference(vec![String::from("a"), String::from("b")], vec![String::from("b")]),
        vec![String::from("a")]
    );
}

#[test]
fn symmetric_difference_of_paths_goes_by_the_ends_of_the_edges() {
    let p = vec![edge(2, 3), edge(1, 2), edge(0, 1)];
    let q = vec![DirectedEdge { v: 2, w: 3, capacity: 7, cost: 7 }, edge(4, 2), edge(0, 4)];
    let d = symmetric_difference(p, q);
    let ends: Vec<(i32, i32)> = d.iter().map(|e| (e.v, e.w)).collect();
    assert_eq!(ends, vec![(1, 2), (0, 1), (4, 2), (0, 4)]);
}

#[test]
fn path_key_lists_the_vertices_from_source_to_target() {
    let p = vec![edge(12, 3), edge(7, 12), edge(0, 7)];
    assert_eq!(path_vertices(&p), vec![0, 7, 12, 3]);
    assert_eq!(vec_edge_to_str(&p), "0_7_12_3");
    assert_eq!(vec_edge_to_str(&vec![edge(5, 6)]), "5_6");
    assert_eq!(vec_edge_to_str(&vec![]), "");
    assert_eq!(path_vertices(&vec![]), Vec::<i32>::new());
    assert_eq!(vec_edge_to_str(&vec![edge(2147483647, 1000000), edge(10, 2147483647)]), "10_2147483647_1000000");
    assert_eq!(vec_edge_to_str(&vec![edge(-2147483648, -7)]), "-2147483648_-7");
    assert_eq!(vec_edge_to_str(&vec![edge(100, 909)]), "100_909");
}

fn graph(node_count: usize, links: Vec<(i32, i32, u64)>, both: bool) -> EdgeWeightedDigraph {
    let links = links
        .into_iter()
        .map(|(source, target, cost)| Link { source, target, capacity: 10, cost })
        .collect();
    let mut g = EdgeWeightedDigraph::default_graph();
    assert!(g.graph_from_links(&Network { node_count, links, demands: vec![] }, both).is_ok());
    g
}

#[test]
fn all_simple_paths_of_a_diamond() {
    let g = graph(4, vec![(0, 1, 1), (1, 3, 1), (0, 2, 1), (2, 3, 1), (1, 2, 1)], true);
    let mut keys: Vec<String> = find_all_path(&g, 0, 3).iter().map(vec_edge_to_str).collect();
    keys.sort();
    assert_eq!(keys, vec!["0_1_2_3", "0_1_3", "0_2_1_3", "0_2_3"]);
    let none = find_all_path(&g, 0, 0);
    assert_eq!(none.len(), 1);
    assert!(none[0].is_empty());
}

#[test]
fn no_simple_path_where_the_target_is_cut_off() {
    let g = graph(4, vec![(0, 1, 1), (1, 0, 1), (2, 3, 1)], false);
    assert!(find_all_path(&g, 0, 3).is_empty());
    assert_eq!(find_all_path(&g, 2, 3).len(), 1);
    assert!(find_all_path(&g, 3, 2).is_empty());
}
