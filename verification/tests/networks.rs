use netflow::flow_deviation::FlowDeviation;
use netflow::flow_deviation::Stop;
use netflow::topology::Demand;
use netflow::topology::Link;
use netflow::topology::Network;
use netflow::utils_graph::vec_edge_to_str;

struct Expected {
    stop: Stop,
    flows: Vec<Vec<u64>>,
    incumbents: Vec<usize>,
    keys: Vec<Vec<&'static str>>,
    first_delay: u64,
    delay: u64,
    bound: u64,
    routed: Vec<u64>,
    shortest: Vec<u64>,
    gradient: Vec<u64>,
}

fn run_and_compare(
    node_count: usize,
    links: Vec<(i32, i32, u32, u64)>,
    demands: Vec<(i32, i32, u64)>,
    parameters: (u32, u16, u32, u32, u32),
    expected: Expected,
) {
    let network = Network {
        node_count,
        links: links
            .into_iter()
            .map(|(source, target, capacity, cost)| Link { source, target, capacity, cost })
            .collect(),
        demands: demands
            .into_iter()
            .map(|(source, target, demand_value)| Demand { source, target, demand_value })
            .collect(),
    };
    let (alpha, p, eps, passes, steps) = parameters;
    let mut fd = FlowDeviation::new(&network, alpha, p).unwrap();
    assert_eq!(fd.get_delay_value(), expected.first_delay);
    assert_eq!(fd.run(eps, passes, steps), Ok(expected.stop));
    let routings = fd.get_routings();
    assert_eq!(routings.len(), expected.flows.len());
    for (k, routing) in routings.iter().enumerate() {
        assert_eq!(routing.flows, expected.flows[k]);
        assert_eq!(routing.incumbent, expected.incumbents[k]);
        let keys: Vec<String> = routing.paths.iter().map(vec_edge_to_str).collect();
        assert_eq!(keys, expected.keys[k]);
        assert_eq!(routing.flows.iter().sum::<u64>(), network.demands[k].demand_value);
    }
    assert_eq!(fd.get_delay_value(), expected.delay);
    assert_eq!(fd.get_lower_bound(), expected.bound);
    assert_eq!(fd.get_method().get_total_flow_vector_x(), expected.routed);
    assert_eq!(fd.get_method().get_total_flow_vector_y(), expected.shortest);
    assert_eq!(fd.get_method().get_delay_gradient(), expected.gradient);
}

#[test]
fn first_network_routes_as_expected() {
    run_and_compare(
        6,
        vec![(0, 1, 8000, 1000), (1, 2, 5000, 0), (2, 3, 5000, 0), (3, 4, 5000, 50000), (4, 5, 8000, 0), (5, 0, 5000, 1000), (0, 1, 5000, 1000), (3, 0, 5000, 0), (4, 0, 20000, 0)],
        vec![(0, 4, 2000), (2, 3, 2000)],
        (65, 500, 100, 8, 6),
        Expected {
            stop: Stop::Converged,
            flows: vec![vec![2000, 0], vec![2000, 0]],
            incumbents: vec![0, 0],
            keys: vec![vec!["0_4", "0_5_4"], vec!["2_3", "2_1_0_3"]],
            first_delay: 777777777,
            delay: 777777777,
            bound: 777777777,
            routed: vec![0, 2000, 0, 0, 0, 2000, 0],
            shortest: vec![2000, 0, 2000, 2000, 2000, 0, 2000],
            gradient: vec![200000, 61728, 200000, 200000, 200000, 555555, 125000],
        },
    );
}

#[test]
fn second_network_routes_as_expected() {
    run_and_compare(
        5,
        vec![(0, 1, 5000, 50000), (1, 2, 8000, 0), (2, 3, 5000, 50000), (3, 4, 5000, 50000), (4, 0, 5000, 50000), (3, 4, 20000, 0), (3, 4, 20000, 0)],
        vec![(1, 1, 2000), (0, 4, 4000), (4, 3, 4000)],
        (1500, 900, 100000, 1, 1),
        Expected {
            stop: Stop::Converged,
            flows: vec![vec![2000], vec![3350, 650], vec![4000]],
            incumbents: vec![0, 1, 0],
            keys: vec![vec![""], vec!["0_4", "0_1_2_3_4"], vec!["4_3"]],
            first_delay: 4250000000,
            delay: 2701180709,
            bound: 4250000000,
            routed: vec![650, 3350, 650, 650, 650, 4000],
            shortest: vec![4000, 0, 4000, 4000, 4000, 4000],
            gradient: vec![264235, 1836547, 148086, 264235, 53415, 78125],
        },
    );
}

#[test]
fn third_network_routes_as_expected() {
    run_and_compare(
        8,
        vec![(0, 1, 20000, 0), (1, 2, 12000, 0), (2, 3, 20000, 1000), (3, 4, 5000, 0), (4, 5, 12000, 0), (5, 6, 12000, 50000), (6, 7, 20000, 50000), (7, 0, 20000, 0), (4, 7, 5000, 0), (4, 7, 12000, 1000)],
        vec![(5, 0, 7000), (5, 2, 500), (7, 0, 2000), (4, 2, 2000)],
        (1500, 900, 100, 1, 1),
        Expected {
            stop: Stop::Converged,
            flows: vec![vec![0, 7000], vec![0, 500], vec![2000], vec![0, 2000]],
            incumbents: vec![1, 1, 0, 1],
            keys: vec![vec!["5_4_7_0", "5_6_7_0"], vec!["5_6_7_4_3_2", "5_4_3_2"], vec!["7_0"], vec!["4_7_0_1_2", "4_3_2"]],
            first_delay: 912250315865,
            delay: 3942978758,
            bound: 912250315865,
            routed: vec![0, 0, 2500, 2500, 0, 500, 7000, 7000, 9000, 0],
            shortest: vec![0, 0, 2500, 2500, 0, 500, 7000, 7000, 9000, 0],
            gradient: vec![50000, 83333, 65306, 800000, 200000, 90737, 480000, 118343, 165289, 200000],
        },
    );
}

#[test]
fn fourth_network_routes_as_expected() {
    run_and_compare(
        7,
        vec![(0, 1, 20000, 50000), (1, 2, 12000, 0), (2, 3, 20000, 50000), (3, 4, 12000, 1000), (4, 5, 12000, 1000), (5, 6, 8000, 0), (6, 0, 5000, 0), (1, 5, 8000, 0), (3, 6, 8000, 0)],
        vec![(0, 1, 7000), (4, 2, 4000), (1, 5, 500)],
        (1500, 500, 100000, 3, 2),
        Expected {
            stop: Stop::Converged,
            flows: vec![vec![0, 7000], vec![4000, 0], vec![500, 0]],
            incumbents: vec![1, 0, 0],
            keys: vec![vec!["0_6_5_1", "0_1"], vec!["4_3_2", "4_5_6_3_2"], vec!["1_5", "1_2_3_4_5"]],
            first_delay: 19146666666,
            delay: 1355128204,
            bound: 19146666666,
            routed: vec![7000, 0, 0, 500, 0, 4000, 0, 4000, 0, 0, 0, 0, 0],
            shortest: vec![7000, 0, 500, 0, 500, 4000, 500, 0, 4500, 0, 4000, 4000, 0],
            gradient: vec![118343, 200000, 83333, 142222, 50000, 78125, 83333, 187500, 83333, 125000, 125000, 125000, 125000],
        },
    );
}

#[test]
fn fifth_network_routes_as_expected() {
    run_and_compare(
        7,
        vec![(0, 1, 20000, 0), (1, 2, 20000, 1000), (2, 3, 5000, 0), (3, 4, 5000, 0), (4, 5, 20000, 0), (5, 6, 5000, 0), (6, 0, 5000, 0), (4, 1, 5000, 0)],
        vec![(0, 0, 2000), (4, 3, 2000), (5, 2, 4000), (4, 2, 7000), (0, 0, 7000)],
        (1500, 900, 100, 3, 1),
        Expected {
            stop: Stop::Converged,
            flows: vec![vec![2000], vec![2000], vec![3338, 662], vec![2888, 4112], vec![7000]],
            incumbents: vec![0, 0, 1, 1, 0],
            keys: vec![vec![""], vec!["4_3"], vec!["5_4_1_2", "5_4_3_2"], vec!["4_5_6_0_1_2", "4_3_2"], vec![""]],
            first_delay: 625215811964,
            delay: 284588904011,
            bound: 625215811964,
            routed: vec![2888, 6226, 4774, 3338, 6774, 2888, 4000, 2888, 2888],
            shortest: vec![0, 0, 11000, 0, 13000, 0, 4000, 0, 0],
            gradient: vec![68301, 105416, 41920000, 1810122, 201920000, 68301, 78125, 1120939, 1120939],
        },
    );
}

#[test]
fn sixth_network_routes_as_expected() {
    run_and_compare(
        5,
        vec![(0, 1, 5000, 0), (1, 2, 12000, 1000), (2, 3, 8000, 50000), (3, 4, 5000, 0), (4, 0, 12000, 0), (0, 4, 12000, 1000), (0, 2, 12000, 0), (2, 1, 12000, 1000), (1, 4, 8000, 0), (3, 1, 8000, 1000)],
        vec![(2, 0, 500), (2, 3, 4000), (1, 4, 4000), (3, 2, 4000)],
        (65, 990, 0, 1, 2),
        Expected {
            stop: Stop::Converged,
            flows: vec![vec![500], vec![3931, 0, 69], vec![3969, 31], vec![3933, 0, 67]],
            incumbents: vec![0, 2, 1, 2],
            keys: vec![vec!["2_0"], vec!["2_1_4_3", "2_1_3", "2_3"], vec!["1_0_4", "1_2_0_4"], vec!["3_4_0_2", "3_1_2", "3_2"]],
            first_delay: 15043478260,
            delay: 14207340961,
            bound: 15043478260,
            routed: vec![3933, 4000, 3969, 31, 0, 3931, 531, 3931, 69, 0, 67, 3933, 3933, 3931],
            shortest: vec![0, 4000, 0, 4000, 0, 0, 4500, 0, 4000, 0, 4000, 0, 0, 0],
            gradient: vec![184398, 187500, 4703841, 83765, 125000, 483186, 91228, 184306, 127184, 125000, 127120, 4391785, 184398, 4375368],
        },
    );
}
