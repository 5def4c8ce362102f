use netflow::flow_deviation::is_same_path;
use netflow::flow_deviation::is_within_gap;
use netflow::flow_deviation::lower_bound;
use netflow::flow_deviation::project_commodity;
use netflow::flow_deviation::projected_flow;
use netflow::flow_deviation::CommodityRouting;
use netflow::flow_deviation::FlowDeviation;
use netflow::flow_deviation::InnerStop;
use netflow::flow_deviation::RoutingError;
use netflow::flow_deviation::Stop;
use netflow::graph::DirectedEdge;
use netflow::graph::EdgeWeightedDigraph;
use netflow::graph::StructuralError;
use netflow::projection_method::ProjectionMethod;
use netflow::topology::Demand;
use netflow::topology::Link;
use netflow::topology::Network;
use netflow::utils_graph::vec_edge_to_str;

fn link(source: i32, target: i32, capacity: u32, cost: u64) -> Link {
    Link { source, target, capacity, cost }
}

fn keys(routing: &CommodityRouting) -> Vec<String> {
    routing.paths.iter().map(vec_edge_to_str).collect()
}

fn diamond() -> Network {
    Network {
        node_count: 4,
        links: vec![
            link(0, 1, 20_000, 0),
            link(1, 3, 20_000, 0),
            link(0, 2, 20_000, 0),
            link(2, 3, 20_000, 0),
        ],
        demands: vec![Demand { source: 0, target: 3, demand_value: 10_000 }],
    }
}

fn ring() -> Network {
    Network {
        node_count: 6,
        links: vec![
            link(0, 1, 15_000, 0),
            link(1, 2, 15_000, 0),
            link(2, 3, 15_000, 0),
            link(3, 4, 15_000, 0),
            link(4, 5, 15_000, 0),
            link(5, 0, 15_000, 0),
            link(0, 3, 15_000, 0),
            link(1, 4, 15_000, 0),
        ],
        demands: vec![
            Demand { source: 0, target: 3, demand_value: 9000 },
            Demand { source: 1, target: 4, demand_value: 8000 },
            Demand { source: 2, target: 5, demand_value: 7000 },
            Demand { source: 0, target: 2, demand_value: 5000 },
        ],
    }
}

#[test]
fn single_path_carries_the_whole_demand_after_one_pass() {
    let network = Network {
        node_count: 3,
        links: vec![link(0, 1, 20_000, 0), link(1, 2, 20_000, 0)],
        demands: vec![Demand { source: 0, target: 2, demand_value: 10_000 }],
    };
    let mut fd = FlowDeviation::new(&network, 65, 990).unwrap();
    assert_eq!(fd.get_lower_bound(), 0);
    assert_eq!(fd.run(100, 1, 50), Ok(Stop::Converged));
    let routing = &fd.get_routings()[0];
    assert_eq!(keys(routing), vec!["0_1_2"]);
    assert_eq!(routing.flows, vec![10_000]);
    assert_eq!(routing.incumbent, 0);
    assert_eq!((routing.source, routing.target, routing.demand), (0, 2, 10_000));
    // two edges, each with the delay 10000 / (20000 - 10000) = 1
    assert_eq!(fd.get_delay_value(), 2_000_000_000);
    assert_eq!(fd.get_lower_bound(), 2_000_000_000);
}

#[test]
fn diamond_starts_with_all_flow_on_one_path() {
    let fd = FlowDeviation::new(&diamond(), 65, 990).unwrap();
    let routing = &fd.get_routings()[0];
    assert_eq!(keys(routing), vec!["0_2_3"]);
    assert_eq!(routing.flows, vec![10_000]);
    assert_eq!(fd.get_delay_value(), 2_000_000_000);
    assert_eq!(fd.get_method().get_total_flow_vector_x(), vec![10_000, 10_000]);
    assert_eq!(fd.get_method().get_total_flow_vector_y(), vec![10_000, 10_000]);
    assert_eq!(fd.get_method().get_delay_gradient(), vec![200_000, 200_000]);
    assert_eq!(fd.get_graph().get_e_count(), 8);
}

#[test]
fn diamond_moves_flow_to_the_free_path_and_keeps_the_demand() {
    let mut fd = FlowDeviation::new(&diamond(), 65, 990).unwrap();
    assert_eq!(fd.run(100, 20, 50), Ok(Stop::Converged));
    let routing = &fd.get_routings()[0];
    assert_eq!(keys(routing), vec!["0_2_3", "0_1_3"]);
    // the step is 65/1000 * (400000 - 100000) / 90 = 216
    assert_eq!(routing.flows, vec![9784, 216]);
    assert_eq!(routing.flows.iter().sum::<u64>(), 10_000);
    assert_eq!(routing.incumbent, 1);
    assert_eq!(fd.get_delay_value(), 1_937_262_606);
    assert_eq!(fd.get_lower_bound(), 2_000_000_000);
    // in the order of the keys 0_1, 0_2, 1_3, 2_3
    assert_eq!(fd.get_method().get_total_flow_vector_x(), vec![216, 9784, 216, 9784]);
    assert_eq!(fd.get_method().get_total_flow_vector_y(), vec![10_000, 0, 10_000, 0]);
    assert_eq!(fd.get_method().get_delay_gradient(), vec![51_097, 191_632, 51_097, 191_632]);
}

#[test]
fn diamond_converges_to_the_even_split() {
    // one step moves alpha/1000 * 300000 / 90 units: half of the demand for alpha = 1500
    let mut fd = FlowDeviation::new(&diamond(), 1500, 990).unwrap();
    assert_eq!(fd.run(100, 50, 50), Ok(Stop::Converged));
    let routing = &fd.get_routings()[0];
    assert_eq!(keys(routing), vec!["0_2_3", "0_1_3"]);
    assert_eq!(routing.flows, vec![5000, 5000]);
    assert_eq!(fd.get_method().get_total_flow_vector_x(), vec![5000, 5000, 5000, 5000]);
    assert_eq!(fd.get_method().get_delay_gradient(), vec![88_888, 88_888, 88_888, 88_888]);
    // four edges, each with the delay 5000 / 15000
    assert_eq!(fd.get_delay_value(), 1_333_333_332);
    // the even split stays when the optimisation goes on
    for _ in 0..3 {
        assert_eq!(fd.pass(100, 10), Ok(true));
        assert_eq!(fd.get_routings()[0].flows, vec![5000, 5000]);
        assert_eq!(fd.get_delay_value(), 1_333_333_332);
    }
}

#[test]
fn diamond_step_by_step() {
    let mut fd = FlowDeviation::new(&diamond(), 65, 990).unwrap();
    assert_eq!(fd.route_commodity(0, 0), Ok(InnerStop::StepLimit));
    assert_eq!(fd.get_routings()[0].flows, vec![10_000]);
    assert_eq!(fd.route_commodity(0, 1), Ok(InnerStop::Settled));
    assert_eq!(fd.get_routings()[0].flows, vec![9784, 216]);
    assert_eq!(fd.route_commodity(0, 1), Ok(InnerStop::Settled));
    assert_eq!(fd.get_routings()[0].flows, vec![9784, 216]);
    assert_eq!(fd.get_lower_bound(), 0);
    // the bound follows from the state before the pass:
    // 1937262606 + 2 * 191632 * (9784 - 0) + 2 * 51097 * (216 - 10000)
    assert_eq!(fd.pass(0, 10), Ok(true));
    assert_eq!(fd.get_lower_bound(), 4_687_251_486);
    assert_eq!(fd.get_delay_value(), 1_937_262_606);
    assert_eq!(fd.run(0, 0, 10), Ok(Stop::PassLimit));
}

#[test]
fn several_commodities_share_the_ring() {
    let mut fd = FlowDeviation::new(&ring(), 65, 990).unwrap();
    {
        let r = fd.get_routings();
        assert_eq!(r.len(), 4);
        assert_eq!(keys(&r[0]), vec!["0_3"]);
        assert_eq!(keys(&r[1]), vec!["1_4"]);
        assert_eq!(keys(&r[2]), vec!["2_3_4_5"]);
        assert_eq!(keys(&r[3]), vec!["0_1_2"]);
    }
    assert_eq!(fd.get_delay_value(), 6_267_857_142);
    assert_eq!(fd.run(100, 50, 50), Ok(Stop::Converged));
    let r = fd.get_routings();
    assert_eq!(keys(&r[0]), vec!["0_3", "0_5_4_3"]);
    assert_eq!(keys(&r[1]), vec!["1_4", "1_0_5_4"]);
    assert_eq!(keys(&r[2]), vec!["2_3_4_5", "2_1_0_5"]);
    assert_eq!(keys(&r[3]), vec!["0_1_2", "0_5_4_3_2"]);
    assert_eq!(r[0].flows, vec![8914, 86]);
    assert_eq!(r[1].flows, vec![7939, 61]);
    assert_eq!(r[2].flows, vec![6836, 164]);
    assert_eq!(r[3].flows, vec![4980, 20]);
    for (c, d) in r.iter().zip(ring().demands.iter()) {
        assert_eq!(c.flows.iter().sum::<u64>(), d.demand_value);
        assert_eq!(c.incumbent, 1);
    }
    assert_eq!(fd.get_delay_value(), 6_163_591_866);
    assert_eq!(fd.get_lower_bound(), 6_267_857_142);
    // in the order of the keys 0_1, 0_3, 0_5, 1_0, 1_2, 1_4, 2_1, 2_3, 3_2, 3_4, 4_3, 4_5, 5_4
    assert_eq!(
        fd.get_method().get_total_flow_vector_x(),
        vec![4980, 8914, 331, 225, 4980, 7939, 164, 6836, 20, 6836, 106, 6836, 167]
    );
}

#[test]
fn a_step_that_leaves_nothing_for_the_shortest_path_is_not_taken() {
    let mut fd = FlowDeviation::new(&diamond(), 0, 990).unwrap();
    assert_eq!(fd.route_commodity(0, 5), Ok(InnerStop::Degenerate));
    let routing = &fd.get_routings()[0];
    assert_eq!(keys(routing), vec!["0_2_3", "0_1_3"]);
    assert_eq!(routing.flows, vec![10_000, 0]);
    assert_eq!(routing.incumbent, 0);
    assert_eq!(fd.get_delay_value(), 2_000_000_000);
    assert_eq!(fd.get_method().get_total_flow_vector_x(), vec![0, 10_000, 0, 10_000]);
    assert_eq!(fd.get_method().get_total_flow_vector_y(), vec![10_000, 0, 10_000, 0]);
}

#[test]
fn larger_steps_on_the_ring() {
    let mut fd = FlowDeviation::new(&ring(), 300, 990).unwrap();
    for k in 0..4 {
        assert_eq!(fd.route_commodity(k, 4), Ok(InnerStop::Settled));
    }
    let r = fd.get_routings();
    assert_eq!(r[0].flows, vec![8599, 401]);
    assert_eq!(r[1].flows, vec![7734, 266]);
    assert_eq!(r[2].flows, vec![6251, 749]);
    assert_eq!(keys(&r[3]), vec!["0_1_2", "0_5_4_3_2"]);
    assert_eq!(r[3].flows, vec![4972, 28]);
    assert_eq!(r[3].incumbent, 1);
    assert_eq!(fd.get_delay_value(), 5_854_415_026);
    let mut fd = FlowDeviation::new(&ring(), 500, 990).unwrap();
    for k in 0..3 {
        assert_eq!(fd.route_commodity(k, 4), Ok(InnerStop::Settled));
    }
    assert_eq!(fd.route_commodity(3, 4), Ok(InnerStop::Degenerate));
    assert_eq!(fd.get_routings()[2].flows, vec![5767, 1233]);
    assert_eq!(fd.get_routings()[3].flows, vec![5000, 0]);
    assert_eq!(fd.get_routings()[3].incumbent, 0);
    assert_eq!(fd.get_delay_value(), 5_666_219_091);
    let mut fd = FlowDeviation::new(&ring(), 2000, 990).unwrap();
    for k in 0..4 {
        assert_eq!(fd.route_commodity(k, 1), Ok(InnerStop::StepLimit));
    }
    assert_eq!(fd.get_routings()[0].flows, vec![6326, 2674]);
    assert_eq!(fd.get_routings()[3].flows, vec![4107, 893]);
    assert_eq!(fd.get_delay_value(), 5_897_684_748);
}

#[test]
fn the_limit_of_steps_ends_the_search() {
    let mut fd = FlowDeviation::new(&diamond(), 4_000_000_000, 990).unwrap();
    assert_eq!(fd.route_commodity(0, 5), Ok(InnerStop::StepLimit));
    let routing = &fd.get_routings()[0];
    assert_eq!(routing.flows, vec![0, 10_000]);
    assert_eq!(routing.incumbent, 1);
    assert_eq!(fd.get_delay_value(), 2_000_000_000);
}

#[test]
fn the_limit_of_passes_ends_the_run() {
    let links = vec![link(0, 1, 20_000, 0), link(1, 2, 20_000, 0)];
    let demands = vec![Demand { source: 0, target: 2, demand_value: 10_000 }];
    let mut fd = FlowDeviation::new(&Network { node_count: 3, links, demands }, 65, 990).unwrap();
    assert_eq!(fd.run(0, 0, 5), Ok(Stop::PassLimit));
    assert_eq!(fd.get_lower_bound(), 0);
    assert_eq!(fd.run(0, 3, 5), Ok(Stop::Converged));
}

#[test]
fn one_projection_step_on_given_paths() {
    let network = diamond();
    let mut graph = EdgeWeightedDigraph::default_graph();
    assert!(graph.graph_from_links(&network, true).is_ok());
    let mut method = ProjectionMethod::new(65, 990).unwrap();
    let upper = vec![
        DirectedEdge { v: 2, w: 3, capacity: 20_000, cost: 0 },
        DirectedEdge { v: 0, w: 2, capacity: 20_000, cost: 0 },
    ];
    let lower = vec![
        DirectedEdge { v: 1, w: 3, capacity: 20_000, cost: 0 },
        DirectedEdge { v: 0, w: 1, capacity: 20_000, cost: 0 },
    ];
    method.set_first_commodity_to_graph(0, 10_000, &upper, &mut graph);
    let mut routing = CommodityRouting {
        source: 0,
        target: 3,
        demand: 10_000,
        paths: vec![upper.clone()],
        flows: vec![10_000],
        incumbent: 0,
    };
    assert!(project_commodity(&mut routing, &mut method, &mut graph, 0, &lower));
    assert_eq!(routing.flows, vec![9784, 216]);
    assert_eq!(routing.incumbent, 1);
    assert_eq!(routing.paths.len(), 2);
    assert!(is_same_path(&routing.paths[1], &lower));
    assert!(!is_same_path(&routing.paths[0], &lower));
    // towards a path that is already there: no new path, flow moves back
    assert!(project_commodity(&mut routing, &mut method, &mut graph, 0, &upper));
    assert_eq!(routing.paths.len(), 2);
    assert_eq!(routing.incumbent, 0);
    assert_eq!(routing.flows, vec![9567, 433]);
    assert_eq!(method.get_total_flow_vector_y(), vec![0, 10_000, 0, 10_000]);
    assert_eq!(method.get_total_flow_vector_x(), vec![433, 9567, 433, 9567]);
}

#[test]
fn projection_formula() {
    // 10000 - 65/1000 * 400000 / 90
    assert_eq!(projected_flow(10_000, 65, 400_000, 0, 90), 9712);
    assert_eq!(projected_flow(10_000, 65, 400_000, 100_000, 90), 9784);
    assert_eq!(projected_flow(100, 65, 400_000, 0, 90), 0);
    assert_eq!(projected_flow(10_000, 65, 0, 400_000, 90), 10_288);
    assert_eq!(projected_flow(10_000, 65, 7, 7, 90), 10_000);
    assert_eq!(projected_flow(5, 1000, 10, 0, 0), 0);
    assert_eq!(projected_flow(5, 1000, 0, 10, 0), 5);
    assert_eq!(projected_flow(5, 1000, 7, 7, 0), 5);
    assert_eq!(projected_flow(u64::MAX - 1, 1000, 0, u64::MAX, 1), u64::MAX);
    assert_eq!(projected_flow(0, u32::MAX, u64::MAX, 0, u64::MAX), 0);
}

#[test]
fn bound_of_the_stopping_rule() {
    assert_eq!(lower_bound(2_000_000_000, &vec![200_000, 200_000], &vec![10_000, 10_000], &vec![10_000, 10_000]), 2_000_000_000);
    // 100 + 10 * (5 - 1) + 20 * (7 - 9)
    assert_eq!(lower_bound(100, &vec![10, 20], &vec![5, 7], &vec![1, 9]), 100);
    assert_eq!(lower_bound(10, &vec![10, 20], &vec![1, 1], &vec![5, 9]), 0);
    assert_eq!(lower_bound(5, &vec![1], &vec![1 << 32], &vec![0]), 0);
    assert_eq!(lower_bound(5, &vec![1], &vec![0], &vec![1 << 32]), 0);
    assert_eq!(lower_bound(5, &vec![1, 2], &vec![3], &vec![4]), 0);
    assert_eq!(lower_bound(5, &vec![], &vec![], &vec![]), 5);
    assert_eq!(lower_bound(u64::MAX, &vec![u64::MAX], &vec![u32::MAX as u64], &vec![0]), u64::MAX);
}

#[test]
fn stopping_rule() {
    assert!(is_within_gap(1_917_245_660, 2_000_000_000, 100));
    assert!(is_within_gap(2_000_200_000, 2_000_000_000, 100));
    assert!(!is_within_gap(2_000_200_001, 2_000_000_000, 100));
    assert!(is_within_gap(0, 0, 0));
    assert!(!is_within_gap(1, 0, u32::MAX));
    assert!(is_within_gap(u64::MAX, u64::MAX, 0));
}

#[test]
fn threshold_outside_the_open_interval_is_refused() {
    let network = Network { node_count: 1, links: vec![], demands: vec![] };
    assert!(matches!(FlowDeviation::new(&network, 65, 0), Err(RoutingError::InvalidThreshold)));
    assert!(matches!(FlowDeviation::new(&network, 65, 1000), Err(RoutingError::InvalidThreshold)));
    assert!(FlowDeviation::new(&network, 65, 999).is_ok());
}

#[test]
fn link_to_a_missing_vertex_is_refused() {
    let network = Network { node_count: 2, links: vec![link(0, 2, 5, 0)], demands: vec![] };
    assert!(matches!(
        FlowDeviation::new(&network, 65, 990),
        Err(RoutingError::Topology(StructuralError::VertexOutOfRange))
    ));
}

#[test]
fn demand_at_a_missing_vertex_is_refused() {
    let network = Network {
        node_count: 2,
        links: vec![link(0, 1, 5, 0)],
        demands: vec![
            Demand { source: 0, target: 1, demand_value: 1 },
            Demand { source: 0, target: -1, demand_value: 1 },
            Demand { source: 2, target: 0, demand_value: 1 },
        ],
    };
    assert!(matches!(
        FlowDeviation::new(&network, 65, 990),
        Err(RoutingError::DemandOutOfRange(1))
    ));
}

#[test]
fn unreachable_target_gives_no_path() {
    let network = Network {
        node_count: 3,
        links: vec![link(0, 1, 5, 0)],
        demands: vec![
            Demand { source: 0, target: 1, demand_value: 1 },
            Demand { source: 0, target: 2, demand_value: 1 },
        ],
    };
    assert!(matches!(FlowDeviation::new(&network, 65, 990), Err(RoutingError::NoPath(1))));
}

#[test]
fn a_demand_from_a_vertex_to_itself_needs_no_edge() {
    let network = Network {
        node_count: 2,
        links: vec![],
        demands: vec![Demand { source: 1, target: 1, demand_value: 5 }],
    };
    let mut fd = FlowDeviation::new(&network, 65, 990).unwrap();
    assert_eq!(fd.run(100, 3, 3), Ok(Stop::Converged));
    assert_eq!(keys(&fd.get_routings()[0]), vec![""]);
    assert_eq!(fd.get_routings()[0].flows, vec![5]);
    assert_eq!(fd.get_delay_value(), 0);
}

#[test]
fn the_ledger_holds_what_the_paths_send() {
    let mut fd = FlowDeviation::new(&ring(), 500, 990).unwrap();
    for round in 0..3 {
        for k in 0..4 {
            assert!(fd.route_commodity(k, 2 + round).is_ok());
        }
        let routings = fd.get_routings();
        for v in 0..6 {
            for w in 0..6 {
                let probe = DirectedEdge { v, w, capacity: 0, cost: 0 };
                let mut total = 0;
                for (k, routing) in routings.iter().enumerate() {
                    let mut sent = 0;
                    for (path, flow) in routing.paths.iter().zip(routing.flows.iter()) {
                        sent += flow * path.iter().filter(|e| **e == probe).count() as u64;
                    }
                    assert_eq!(fd.get_method().get_flow_of(&probe, &(k as i32)), sent);
                    total += sent;
                }
                assert_eq!(fd.get_method().get_total_flow_of(&probe), total);
            }
        }
        for (routing, demand) in routings.iter().zip(ring().demands.iter()) {
            assert_eq!(routing.flows.iter().sum::<u64>(), demand.demand_value);
        }
    }
    let probe = DirectedEdge { v: 0, w: 3, capacity: 0, cost: 0 };
    assert_eq!(fd.get_method().get_flow_of(&probe, &0), fd.get_routings()[0].flows[0]);
    assert_eq!(fd.get_method().get_flow_of(&probe, &9), 0);
}

#[test]
fn a_link_without_capacity_leaves_no_path_once_it_carries_flow() {
    let network = Network {
        node_count: 2,
        links: vec![link(0, 1, 0, 0)],
        demands: vec![Demand { source: 0, target: 1, demand_value: 5 }],
    };
    let mut fd = FlowDeviation::new(&network, 65, 990).unwrap();
    assert_eq!(fd.get_routings()[0].flows, vec![5]);
    assert_eq!(fd.get_graph().edge_list(0).get_from_bag().map(|e| e.cost), Some(u64::MAX));
    assert_eq!(fd.run(100, 3, 50), Err(RoutingError::NoPath(0)));
    assert_eq!(keys(&fd.get_routings()[0]), vec!["0_1"]);
    assert_eq!(fd.get_routings()[0].flows, vec![5]);
}
