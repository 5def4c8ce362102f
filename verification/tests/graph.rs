use std::collections::HashSet;

use netflow::graph::DirectedEdge;
use netflow::graph::EdgeWeightedDigraph;
use netflow::graph::StructuralError;
use netflow::topology::Demand;
use netflow::topology::Link;
use netflow::topology::Network;

fn network(node_count: usize, links: Vec<Link>) -> Network {
    Network { node_count, links, demands: vec![] }
}

fn row(g: &EdgeWeightedDigraph, v: usize) -> Vec<(i32, i32, u32, u64)> {
    let bag = g.edge_list(v);
    let mut out = vec![];
    let mut it = bag.iter();
    while let Some(e) = it.next() {
        out.push((e.v, e.w, e.capacity, e.cost));
    }
    out
}

#[test]
fn default_graph_has_nothing() {
    let g = EdgeWeightedDigraph::default_graph();
    assert_eq!(g.get_v_count(), 0);
    assert_eq!(g.get_e_count(), 0);
}

#[test]
fn links_become_edges_in_both_directions() {
    let net = network(
        3,
        vec![
            Link { source: 0, target: 1, capacity: 7, cost: 3 },
            Link { source: 1, target: 2, capacity: 9, cost: 4 },
            Link { source: 0, target: 2, capacity: 5, cost: 8 },
        ],
    );
    let mut g = EdgeWeightedDigraph::default_graph();
    assert_eq!(g.graph_from_links(&net, true), Ok(()));
    assert_eq!(g.get_v_count(), 3);
    assert_eq!(g.get_e_count(), 6);
    assert_eq!(row(&g, 0), vec![(0, 2, 5, 8), (0, 1, 7, 3)]);
    assert_eq!(row(&g, 1), vec![(1, 2, 9, 4), (1, 0, 7, 3)]);
    assert_eq!(row(&g, 2), vec![(2, 0, 5, 8), (2, 1, 9, 4)]);
}

#[test]
fn links_become_edges_in_one_direction() {
    let net = network(
        3,
        vec![
            Link { source: 0, target: 1, capacity: 7, cost: 3 },
            Link { source: 0, target: 2, capacity: 5, cost: 8 },
            Link { source: 2, target: 2, capacity: 1, cost: 1 },
        ],
    );
    let mut g = EdgeWeightedDigraph::default_graph();
    assert_eq!(g.graph_from_links(&net, false), Ok(()));
    assert_eq!(g.get_e_count(), 3);
    assert_eq!(row(&g, 0), vec![(0, 2, 5, 8), (0, 1, 7, 3)]);
    assert_eq!(row(&g, 1), vec![]);
    assert_eq!(row(&g, 2), vec![(2, 2, 1, 1)]);
    assert_eq!(g.edge_list(0).size(), 2);
}

#[test]
fn a_link_to_a_missing_vertex_aborts_the_build() {
    let mut g = EdgeWeightedDigraph::default_graph();
    let good = network(2, vec![Link { source: 0, target: 1, capacity: 1, cost: 1 }]);
    assert_eq!(g.graph_from_links(&good, false), Ok(()));
    for (source, target) in [(0, 2), (2, 0), (-1, 0), (0, -1), (i32::MAX, 0)] {
        let bad = network(2, vec![Link { source, target, capacity: 1, cost: 1 }]);
        assert_eq!(g.graph_from_links(&bad, true), Err(StructuralError::VertexOutOfRange));
        assert_eq!(g.get_v_count(), 2);
        assert_eq!(g.get_e_count(), 1);
        assert_eq!(row(&g, 0), vec![(0, 1, 1, 1)]);
    }
}

#[test]
fn too_many_vertices_are_refused() {
    let mut g = EdgeWeightedDigraph::default_graph();
    let net = network(i32::MAX as usize, vec![]);
    assert_eq!(g.graph_from_links(&net, true), Err(StructuralError::TooManyVertices));
    let net = network(usize::MAX, vec![Link { source: 0, target: 9, capacity: 1, cost: 1 }]);
    assert_eq!(g.graph_from_links(&net, true), Err(StructuralError::TooManyVertices));
    assert_eq!(g.get_v_count(), 0);
}

#[test]
fn update_edge_changes_the_first_matching_edge_only() {
    let net = network(
        3,
        vec![
            Link { source: 0, target: 1, capacity: 7, cost: 3 },
            Link { source: 0, target: 1, capacity: 8, cost: 4 },
            Link { source: 0, target: 2, capacity: 9, cost: 5 },
        ],
    );
    let mut g = EdgeWeightedDigraph::default_graph();
    assert_eq!(g.graph_from_links(&net, false), Ok(()));
    g.update_edge(0, 1, 100);
    assert_eq!(row(&g, 0), vec![(0, 2, 9, 5), (0, 1, 8, 100), (0, 1, 7, 3)]);
    assert_eq!(g.get_e_count(), 3);
}

#[test]
fn update_edge_without_such_an_edge_changes_nothing() {
    let net = network(3, vec![Link { source: 0, target: 1, capacity: 7, cost: 3 }]);
    let mut g = EdgeWeightedDigraph::default_graph();
    assert_eq!(g.graph_from_links(&net, true), Ok(()));
    g.update_edge(0, 2, 100);
    g.update_edge(2, 0, 100);
    g.update_edge(-1, 0, 100);
    g.update_edge(3, 0, 100);
    g.update_edge(i32::MAX, i32::MIN, 100);
    assert_eq!(row(&g, 0), vec![(0, 1, 7, 3)]);
    assert_eq!(row(&g, 1), vec![(1, 0, 7, 3)]);
    assert_eq!(row(&g, 2), vec![]);
}

#[test]
fn edges_are_the_same_when_their_ends_are() {
    let a = DirectedEdge { v: 1, w: 2, capacity: 5, cost: 9 };
    let b = DirectedEdge { v: 1, w: 2, capacity: 6, cost: 10 };
    let c = DirectedEdge { v: 1, w: 3, capacity: 5, cost: 9 };
    let d = DirectedEdge { v: 2, w: 1, capacity: 5, cost: 9 };
    assert!(a == b);
    assert!(a != c);
    assert!(a != d);
}

#[test]
fn edge_accessors() {
    let mut e = DirectedEdge::get_empty_edge(3, 4);
    assert_eq!((e.from(), e.to(), e.get_capacity(), e.get_cost()), (3, 4, 0, 0));
    e.update_cost(77);
    assert_eq!((e.from(), e.to(), e.get_capacity(), e.get_cost()), (3, 4, 0, 77));
    let copy = e;
    e.update_cost(78);
    assert_eq!(copy.get_cost(), 77);
}

#[test]
fn topology_accessors() {
    let l = Link { source: 1, target: 2, capacity: 3, cost: 4 };
    assert_eq!((l.get_source(), l.get_target(), l.get_capacity(), l.get_cost()), (1, 2, 3, 4));
    let d = Demand { source: 5, target: 6, demand_value: 7 };
    assert_eq!((d.get_source(), d.get_target(), d.get_demand_vale()), (5, 6, 7));
    let n = Network { node_count: 9, links: vec![l, l], demands: vec![d] };
    assert_eq!((n.get_node_count(), n.get_link_count(), n.get_demands_count()), (9, 2, 1));
}

#[test]
fn edges_that_are_the_same_link_hash_alike() {
    let mut set = HashSet::new();
    assert!(set.insert(DirectedEdge { v: 1, w: 2, capacity: 5, cost: 9 }));
    assert!(!set.insert(DirectedEdge { v: 1, w: 2, capacity: 6, cost: 10 }));
    assert!(set.insert(DirectedEdge { v: 2, w: 1, capacity: 5, cost: 9 }));
    assert!(set.insert(DirectedEdge { v: 1, w: 3, capacity: 5, cost: 9 }));
    assert_eq!(set.len(), 3);
    assert!(set.contains(&DirectedEdge::get_empty_edge(1, 3)));
    assert!(!set.contains(&DirectedEdge::get_empty_edge(3, 1)));
}
