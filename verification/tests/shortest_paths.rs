use netflow::dijkstra_find_path::DijkstraAllPairsSP;
use netflow::dijkstra_find_path::DijkstraSP;
use netflow::dijkstra_find_path::UNREACHED;
use netflow::graph::DirectedEdge;
use netflow::graph::EdgeWeightedDigraph;
use netflow::topology::Link;
use netflow::topology::Network;
use netflow::utils_graph::find_all_path;

fn link(source: i32, target: i32, cost: u64) -> Link {
    Link { source, target, capacity: 10, cost }
}

fn directed(node_count: usize, links: Vec<Link>) -> EdgeWeightedDigraph {
    let network = Network { node_count, links, demands: vec![] };
    let mut g = EdgeWeightedDigraph::default_graph();
    assert!(g.graph_from_links(&network, false).is_ok());
    g
}

fn brute_force(n: usize, links: &[Link], s: usize) -> Vec<u64> {
    let mut dist = vec![UNREACHED; n];
    dist[s] = 0;
    for _ in 0..n {
        for l in links {
            let (u, w) = (l.source as usize, l.target as usize);
            if dist[u] != UNREACHED {
                let d = dist[u].saturating_add(l.cost);
                if d < dist[w] {
                    dist[w] = d;
                }
            }
        }
    }
    dist
}

#[test]
fn distances_match_exhaustive_relaxation() {
    let links = vec![
        link(4, 5, 35),
        link(5, 4, 35),
        link(4, 7, 37),
        link(5, 7, 28),
        link(7, 5, 28),
        link(5, 1, 32),
        link(0, 4, 38),
        link(0, 2, 26),
        link(7, 3, 39),
        link(1, 3, 29),
        link(2, 7, 34),
        link(6, 2, 40),
        link(3, 6, 52),
        link(6, 0, 58),
        link(6, 4, 93),
    ];
    let g = directed(8, links.clone());
    for s in 0..8usize {
        let sp = DijkstraSP::dijkstra(&g, s as i32);
        let expected = brute_force(8, &links, s);
        for v in 0..8usize {
            assert_eq!(sp.dist_to(v), expected[v]);
        }
    }
}

#[test]
fn known_distances_from_vertex_zero() {
    let links = vec![
        link(4, 5, 35),
        link(5, 4, 35),
        link(4, 7, 37),
        link(5, 7, 28),
        link(7, 5, 28),
        link(5, 1, 32),
        link(0, 4, 38),
        link(0, 2, 26),
        link(7, 3, 39),
        link(1, 3, 29),
        link(2, 7, 34),
        link(6, 2, 40),
        link(3, 6, 52),
        link(6, 0, 58),
        link(6, 4, 93),
    ];
    let g = directed(8, links);
    let sp = DijkstraSP::dijkstra(&g, 0);
    let expected = [0u64, 105, 26, 99, 38, 73, 151, 60];
    for v in 0..8usize {
        assert_eq!(sp.dist_to(v), expected[v]);
        assert!(sp.has_path_to(v));
    }
}

#[test]
fn path_costs_sum_to_the_distance() {
    let links = vec![
        link(0, 1, 5),
        link(0, 2, 1),
        link(2, 1, 2),
        link(1, 3, 4),
        link(2, 3, 9),
        link(3, 0, 1),
    ];
    let g = directed(5, links);
    let sp = DijkstraSP::dijkstra(&g, 0);
    for v in 0..4usize {
        let path = sp.path_to(v).unwrap();
        let total: u64 = path.iter().map(|e| e.cost).sum();
        assert_eq!(total, sp.dist_to(v));
        let mut at = v as i32;
        for e in &path {
            assert_eq!(e.w, at);
            at = e.v;
        }
        assert_eq!(at, 0);
    }
    let to_three = sp.path_to(3).unwrap();
    let ends: Vec<(i32, i32)> = to_three.iter().map(|e| (e.v, e.w)).collect();
    assert_eq!(ends, vec![(1, 3), (2, 1), (0, 2)]);
    assert_eq!(sp.dist_to(3), 7);
}

#[test]
fn unreached_vertex_has_no_path() {
    let g = directed(3, vec![link(0, 1, 4)]);
    let sp = DijkstraSP::dijkstra(&g, 0);
    assert_eq!(sp.dist_to(2), UNREACHED);
    assert!(!sp.has_path_to(2));
    assert!(sp.path_to(2).is_none());
    assert_eq!(sp.path_to(0), Some(vec![]));
    assert_eq!(sp.dist_to(17), UNREACHED);
    assert!(sp.path_to(17).is_none());
}

#[test]
fn search_follows_a_changed_cost() {
    let mut g = directed(3, vec![link(0, 1, 1), link(1, 2, 1), link(0, 2, 5)]);
    assert_eq!(DijkstraSP::dijkstra(&g, 0).dist_to(2), 2);
    g.update_edge(1, 2, 10);
    let sp = DijkstraSP::dijkstra(&g, 0);
    assert_eq!(sp.dist_to(2), 5);
    let path = sp.path_to(2).unwrap();
    assert_eq!(path.len(), 1);
    assert!(path[0] == DirectedEdge::get_empty_edge(0, 2));
    assert_eq!(path[0].cost, 5);
}

#[test]
fn costs_beyond_the_largest_distance_count_as_unreached() {
    let g = directed(3, vec![link(0, 1, u64::MAX - 1), link(1, 2, 7)]);
    let sp = DijkstraSP::dijkstra(&g, 0);
    assert_eq!(sp.dist_to(1), u64::MAX - 1);
    assert_eq!(sp.dist_to(2), UNREACHED);
    assert!(sp.path_to(2).is_none());
}

#[test]
fn distances_match_the_cheapest_of_all_simple_paths() {
    let mut state: u64 = 99;
    for round in 0..30 {
        let n = 2 + round % 6;
        let mut links = vec![];
        for _ in 0..(2 * n) {
            state = state.wrapping_mul(6364136223846793005).wrapping_add(1442695040888963407);
            let a = ((state >> 33) % n as u64) as i32;
            let b = ((state >> 43) % n as u64) as i32;
            let cost = (state >> 20) % 10;
            links.push(link(a, b, cost));
        }
        let g = directed(n, links);
        for s in 0..n {
            let sp = DijkstraSP::dijkstra(&g, s as i32);
            for t in 0..n {
                let best = find_all_path(&g, s as i32, t as i32)
                    .iter()
                    .map(|p| p.iter().map(|e| e.cost).sum::<u64>())
                    .min();
                match best {
                    Some(cost) => {
                        assert_eq!(sp.dist_to(t), cost);
                        let path = sp.path_to(t).unwrap();
                        assert_eq!(path.iter().map(|e| e.cost).sum::<u64>(), cost);
                    }
                    None => {
                        assert_eq!(sp.dist_to(t), UNREACHED);
                        assert!(sp.path_to(t).is_none());
                    }
                }
            }
        }
    }
}

#[test]
fn all_pairs_runs_one_search_from_every_vertex() {
    let g = directed(3, vec![link(0, 1, 4), link(1, 2, 5)]);
    let all = DijkstraAllPairsSP::get_all_pairs(&g);
    assert_eq!(all.size(), 3);
    assert_eq!(all.search_from(0).dist_to(2), 9);
    assert_eq!(all.search_from(1).dist_to(2), 5);
    assert_eq!(all.search_from(1).dist_to(0), UNREACHED);
    assert_eq!(all.search_from(2).dist_to(2), 0);
}
