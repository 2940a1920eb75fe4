use std::collections::HashSet;

use graph::create_residual_edges;
use graph::path_from_visited;
use graph::FlowEdge;
use graph::FlowGraph;
use graph::Graph;
use graph::Search;
use graph::VertexId;

#[test]
fn lib_test_new_graph() {
    let vertex_list = vec![0, 1, 2, 3, 4];
    let edge_list = vec![(0, 1, 5), (0, 2, 2), (2, 3, 3), (4, 3, 1)];
    let g = Graph::new(&vertex_list, &edge_list);
    assert_eq!(g.size(), (5, 4));
    assert_eq!(g.n_vertexes(), vertex_list.len());
    assert_eq!(g.edges[0][1], 5);
    assert_eq!(g.edges[0][2], 2);
    assert_eq!(g.edges[2][3], 3);
    assert_eq!(g.edges[4][3], 1);
}

#[test]
fn test_bfs() {
    let vertex_list = vec![0, 1, 2, 3, 4, 5];
    let edge_list = vec![(0, 1, 1), (1, 2, 1), (0, 3, 1), (3, 4, 1), (4, 1, 0), (4, 5, 1), (5, 2, 1)];
    let g = Graph::new(&vertex_list, &edge_list);
    let mut result: Vec<(VertexId, u32, VertexId)> = Vec::new();
    let mut iter = g.bfs_iter(0, 2);
    loop {
        match iter.next() {
            Some(item) => result.push(item),
            None => break,
        }
    }
    let mut result_set = HashSet::new();
    result_set.extend(result);
    let mut expect = HashSet::new();
    expect.insert((0, 0, usize::MAX));
    expect.insert((1, 1, 0));
    expect.insert((2, 2, 1));
    expect.insert((3, 1, 0));
    assert_eq!(result_set, expect);
}

#[test]
fn test_dfs() {
    let vertex_list = vec![0, 1, 2, 3, 4];
    let edge_list = vec![(0, 3, 1), (0, 1, 1), (1, 2, 1), (2, 4, 1), (3, 4, 1)];
    let g = Graph::new(&vertex_list, &edge_list);
    let mut result: Vec<(VertexId, u32, VertexId)> = Vec::new();
    let mut iter = g.dfs_iter(0, 4);
    loop {
        match iter.next() {
            Some(item) => result.push(item),
            None => break,
        }
    }
    let mut result_set = HashSet::new();
    result_set.extend(result);
    let mut expect = HashSet::new();
    expect.insert((0, 0, usize::MAX));
    expect.insert((1, 1, 0));
    expect.insert((2, 2, 1));
    expect.insert((4, 3, 2));
    assert_eq!(result_set, expect);
}

#[test]
fn test_augmenting_path() {
    let vertex_list = vec![0, 1, 2, 3, 4, 5, 6];
    let edge_list = vec![
        (0, 1, FlowEdge { flow: 0, capacity: 1 }),
        (0, 2, FlowEdge { flow: 0, capacity: 1 }),
        (1, 3, FlowEdge { flow: 0, capacity: 1 }),
        (1, 5, FlowEdge { flow: 0, capacity: 1 }),
        (2, 5, FlowEdge { flow: 0, capacity: 1 }),
        (2, 6, FlowEdge { flow: 0, capacity: 1 }),
        (3, 4, FlowEdge { flow: 0, capacity: 1 }),
    ];
    let mut g = Graph::new(&vertex_list, &edge_list);

    assert_eq!(g.augmenting_path(0, 4, Search::Bfs).unwrap(), [0, 1, 3, 4]);

    g.edges[1][3].flow = 1;
    assert_eq!(g.augmenting_path(0, 4, Search::Bfs), None);
}

#[test]
fn test_path_from_visited() {
    let source = 0;
    let sink = 4;
    let visited = vec![
        (0, 0, usize::MAX),
        (1, 1, 0),
        (2, 1, 0),
        (5, 2, 1),
        (3, 2, 1),
        (4, 3, 3),
        (6, 2, 2),
    ];
    let mut node_parent_map = vec![usize::MAX; 7];
    for n in visited {
        node_parent_map[n.0] = n.2;
    }
    let path = path_from_visited(source, sink, &node_parent_map);
    assert_eq!(path, [0, 1, 3, 4]);
}

#[test]
fn test_max_flow_0() {
    let vertex_list = vec![0, 1, 2, 3, 4, 5, 6];
    let mut edge_list = vec![
        (0, 1, FlowEdge { flow: 0, capacity: 3 }),
        (0, 2, FlowEdge { flow: 0, capacity: 1 }),
        (1, 3, FlowEdge { flow: 0, capacity: 2 }),
        (1, 5, FlowEdge { flow: 0, capacity: 1 }),
        (2, 5, FlowEdge { flow: 0, capacity: 1 }),
        (2, 6, FlowEdge { flow: 0, capacity: 1 }),
        (3, 4, FlowEdge { flow: 0, capacity: 2 }),
        (5, 6, FlowEdge { flow: 0, capacity: 1 }),
        (6, 4, FlowEdge { flow: 0, capacity: 2 }),
    ];
    create_residual_edges(&mut edge_list);
    let mut g = Graph::new(&vertex_list, &edge_list);
    let total_flow = g.max_flow(0, 4, Search::Bfs);
    assert_eq!(total_flow, 4);
}

#[test]
fn test_max_flow_1() {
    let vertex_list = vec![0, 1, 2, 3];
    let mut edge_list = vec![
        (0, 2, FlowEdge { flow: 0, capacity: 5 }),
        (0, 3, FlowEdge { flow: 0, capacity: 5 }),
        (2, 3, FlowEdge { flow: 0, capacity: 1 }),
        (2, 1, FlowEdge { flow: 0, capacity: 5 }),
        (3, 1, FlowEdge { flow: 0, capacity: 5 }),
    ];
    create_residual_edges(&mut edge_list);
    let mut g = Graph::new(&vertex_list, &edge_list);
    let total_flow = g.max_flow(0, 1, Search::Bfs);
    assert_eq!(total_flow, 10);
}

#[test]
fn test_max_flow_2() {
    let vertex_list = vec![0, 1, 2, 3, 4, 5];
    let mut edge_list = vec![
        (0, 1, FlowEdge { flow: 0, capacity: 11 }),
        (0, 2, FlowEdge { flow: 0, capacity: 12 }),
        (2, 1, FlowEdge { flow: 0, capacity: 1 }),
        (1, 3, FlowEdge { flow: 0, capacity: 12 }),
        (2, 4, FlowEdge { flow: 0, capacity: 11 }),
        (4, 3, FlowEdge { flow: 0, capacity: 7 }),
        (4, 5, FlowEdge { flow: 0, capacity: 4 }),
        (3, 5, FlowEdge { flow: 0, capacity: 19 }),
    ];
    create_residual_edges(&mut edge_list);
    let mut g = Graph::new(&vertex_list, &edge_list);
    let total_flow = g.max_flow(0, 5, Search::Bfs);
    assert_eq!(total_flow, 23);
}
