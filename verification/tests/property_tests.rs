use graph::create_residual_edges;
use graph::FlowEdge;
use graph::FlowGraph;
use graph::Graph;
use graph::Search;
use graph::VertexId;

fn diamond_network() -> Graph<FlowEdge> {
    let vertex_list = vec![0, 1, 2, 3, 4, 5, 6];
    let mut edge_list = vec![
        (0, 1, FlowEdge { flow: 0, capacity: 3 }),
        (0, 2, FlowEdge { flow: 0, capacity: 1 }),
        (1, 3, FlowEdge { flow: 0, capacity: 2 }),
        (1, 5, FlowEdge { flow: 0, capacity: 1 }),
        (2, 5, FlowEdge { flow: 0, capacity: 1 }),
        (2, 6, FlowEdge { flow: 0, capacity: 1 }),
        (3, 4, FlowEdge { flow: 0, capacity: 2 }),
        (5, 6, FlowEdge { flow: 0, capacity: 1 }),
        (6, 4, FlowEdge { flow: 0, capacity: 2 }),
    ];
    create_residual_edges(&mut edge_list);
    Graph::new(&vertex_list, &edge_list)
}

fn two_route_network() -> Graph<FlowEdge> {
    let vertex_list = vec![0, 1, 2, 3];
    let mut edge_list = vec![
        (0, 2, FlowEdge { flow: 0, capacity: 5 }),
        (0, 3, FlowEdge { flow: 0, capacity: 5 }),
        (2, 3, FlowEdge { flow: 0, capacity: 1 }),
        (2, 1, FlowEdge { flow: 0, capacity: 5 }),
        (3, 1, FlowEdge { flow: 0, capacity: 5 }),
    ];
    create_residual_edges(&mut edge_list);
    Graph::new(&vertex_list, &edge_list)
}

fn layered_network() -> Graph<FlowEdge> {
    let vertex_list = vec![0, 1, 2, 3, 4, 5];
    let mut edge_list = vec![
        (0, 1, FlowEdge { flow: 0, capacity: 11 }),
        (0, 2, FlowEdge { flow: 0, capacity: 12 }),
        (2, 1, FlowEdge { flow: 0, capacity: 1 }),
        (1, 3, FlowEdge { flow: 0, capacity: 12 }),
        (2, 4, FlowEdge { flow: 0, capacity: 11 }),
        (4, 3, FlowEdge { flow: 0, capacity: 7 }),
        (4, 5, FlowEdge { flow: 0, capacity: 4 }),
        (3, 5, FlowEdge { flow: 0, capacity: 19 }),
    ];
    create_residual_edges(&mut edge_list);
    Graph::new(&vertex_list, &edge_list)
}

/// Brute-force minimum cut: the smallest, over all vertex sets holding the
/// source but not the sink, of the total capacity crossing out of the set.
fn min_cut_capacity(g: &Graph<FlowEdge>, source: VertexId, sink: VertexId) -> i64 {
    let n = g.n_vertexes();
    assert!(n <= 20);
    let mut best: i64 = i64::MAX;
    for mask in 0u32..(1u32 << n) {
        if mask & (1 << source) == 0 || mask & (1 << sink) != 0 {
            continue;
        }
        let mut cap: i64 = 0;
        for u in 0..n {
            if mask & (1 << u) == 0 {
                continue;
            }
            for v in 0..n {
                if mask & (1 << v) == 0 {
                    cap += g.edges[u][v].capacity as i64;
                }
            }
        }
        if cap < best {
            best = cap;
        }
    }
    best
}

#[test]
fn test_min_cut_matches_flow() {
    let cases: Vec<(Graph<FlowEdge>, VertexId, VertexId)> = vec![
        (diamond_network(), 0, 4),
        (two_route_network(), 0, 1),
        (layered_network(), 0, 5),
    ];
    for (mut g, source, sink) in cases {
        let cut = min_cut_capacity(&g, source, sink);
        let flow = g.max_flow(source, sink, Search::Bfs);
        assert_eq!(flow as i64, cut);
    }
}

#[test]
fn test_mode_agreement() {
    let mut bfs_diamond = diamond_network();
    let mut dfs_diamond = diamond_network();
    assert_eq!(
        bfs_diamond.max_flow(0, 4, Search::Bfs),
        dfs_diamond.max_flow(0, 4, Search::Dfs)
    );
    let mut bfs_two = two_route_network();
    let mut dfs_two = two_route_network();
    assert_eq!(bfs_two.max_flow(0, 1, Search::Bfs), dfs_two.max_flow(0, 1, Search::Dfs));
    let mut bfs_layered = layered_network();
    let mut dfs_layered = layered_network();
    assert_eq!(
        bfs_layered.max_flow(0, 5, Search::Bfs),
        dfs_layered.max_flow(0, 5, Search::Dfs)
    );
}

#[test]
fn test_flow_conservation_after_max_flow() {
    let mut g = layered_network();
    let n = g.n_vertexes();
    g.max_flow(0, 5, Search::Bfs);
    for v in 1..n - 1 {
        let mut outgoing: i64 = 0;
        let mut incoming: i64 = 0;
        for u in 0..n {
            let f = g.edges[v][u].flow as i64;
            if f > 0 {
                outgoing += f;
            }
            let f_in = g.edges[u][v].flow as i64;
            if f_in > 0 {
                incoming += f_in;
            }
        }
        assert_eq!(outgoing, incoming);
    }
}

#[test]
fn test_capacity_respected_after_max_flow() {
    let mut g = diamond_network();
    let n = g.n_vertexes();
    g.max_flow(0, 4, Search::Bfs);
    for u in 0..n {
        for v in 0..n {
            let e = g.edges[u][v];
            assert!(e.flow <= e.capacity);
            // mirror convention: the reverse slot carries the negation
            assert_eq!(e.flow, -g.edges[v][u].flow);
            if g.edges[v][u].capacity == 0 {
                assert!(e.flow >= 0);
            }
        }
    }
}

#[test]
fn test_no_path_after_termination() {
    let mut g = two_route_network();
    g.max_flow(0, 1, Search::Bfs);
    assert_eq!(g.augmenting_path(0, 1, Search::Bfs), None);
    assert_eq!(g.augmenting_path(0, 1, Search::Dfs), None);
    let mut g2 = diamond_network();
    g2.max_flow(0, 4, Search::Dfs);
    assert_eq!(g2.augmenting_path(0, 4, Search::Bfs), None);
    assert_eq!(g2.augmenting_path(0, 4, Search::Dfs), None);
}

#[test]
fn test_neighbor_count_matches_matrix_row() {
    let vertex_list = vec![0, 1, 2, 3, 4];
    let edge_list = vec![(0, 1, 5), (0, 2, 2), (2, 3, 3), (4, 3, 1), (2, 0, 7)];
    let g = Graph::new(&vertex_list, &edge_list);
    for v in 0..5 {
        let filled = g.edges[v].iter().filter(|e| **e != 0).count();
        assert_eq!(g.neighbors[v].len(), filled);
    }
}

#[test]
fn test_residual_edges_synthesized() {
    let mut edge_list = vec![
        (0usize, 1usize, FlowEdge { flow: 0, capacity: 4 }),
        (1, 2, FlowEdge { flow: 0, capacity: 3 }),
    ];
    create_residual_edges(&mut edge_list);
    assert_eq!(edge_list.len(), 4);
    assert_eq!(edge_list[2].0, 1);
    assert_eq!(edge_list[2].1, 0);
    assert_eq!(edge_list[2].2.capacity, 0);
    assert_eq!(edge_list[3].0, 2);
    assert_eq!(edge_list[3].1, 1);
    assert_eq!(edge_list[3].2.capacity, 0);
}

#[test]
fn test_residual_skips_explicit_reverse() {
    // the explicit reverse edge wins: no zero-capacity residual may
    // overwrite it later
    let mut edge_list = vec![
        (0usize, 1usize, FlowEdge { flow: 0, capacity: 4 }),
        (1, 0, FlowEdge { flow: 0, capacity: 9 }),
    ];
    create_residual_edges(&mut edge_list);
    assert_eq!(edge_list.len(), 2);
    let vertex_list = vec![0, 1];
    let g = Graph::new(&vertex_list, &edge_list);
    assert_eq!(g.edges[0][1].capacity, 4);
    assert_eq!(g.edges[1][0].capacity, 9);
}

#[test]
fn test_unit_capacity_diamond_bounded_by_source_cut() {
    // with every capacity 1 (and 2 on the last hop) only two units can
    // ever leave the source, so the total flow is 2
    let vertex_list = vec![0, 1, 2, 3, 4, 5, 6];
    let mut edge_list = vec![
        (0, 1, FlowEdge { flow: 0, capacity: 1 }),
        (0, 2, FlowEdge { flow: 0, capacity: 1 }),
        (1, 3, FlowEdge { flow: 0, capacity: 1 }),
        (1, 5, FlowEdge { flow: 0, capacity: 1 }),
        (2, 5, FlowEdge { flow: 0, capacity: 1 }),
        (2, 6, FlowEdge { flow: 0, capacity: 1 }),
        (3, 4, FlowEdge { flow: 0, capacity: 1 }),
        (5, 6, FlowEdge { flow: 0, capacity: 1 }),
        (6, 4, FlowEdge { flow: 0, capacity: 2 }),
    ];
    create_residual_edges(&mut edge_list);
    let mut g = Graph::new(&vertex_list, &edge_list);
    let total_flow = g.max_flow(0, 4, Search::Bfs);
    assert_eq!(total_flow, 2);
    assert_eq!(total_flow as i64, min_cut_capacity(&diamond_unit(), 0, 4));
}

fn diamond_unit() -> Graph<FlowEdge> {
    let vertex_list = vec![0, 1, 2, 3, 4, 5, 6];
    let mut edge_list = vec![
        (0, 1, FlowEdge { flow: 0, capacity: 1 }),
        (0, 2, FlowEdge { flow: 0, capacity: 1 }),
        (1, 3, FlowEdge { flow: 0, capacity: 1 }),
        (1, 5, FlowEdge { flow: 0, capacity: 1 }),
        (2, 5, FlowEdge { flow: 0, capacity: 1 }),
        (2, 6, FlowEdge { flow: 0, capacity: 1 }),
        (3, 4, FlowEdge { flow: 0, capacity: 1 }),
        (5, 6, FlowEdge { flow: 0, capacity: 1 }),
        (6, 4, FlowEdge { flow: 0, capacity: 2 }),
    ];
    create_residual_edges(&mut edge_list);
    Graph::new(&vertex_list, &edge_list)
}
