use graph::graph::Graph;

#[test]
fn graph_test_new_graph() {
    let vertex_list = vec![(0, 0), (1, 0), (2, 0), (3, 0), (4, 0)];
    let edge_list = vec![(0, 1, 5), (0, 2, 2), (2, 3, 3), (4, 3, 1)];
    let g = Graph::new(&vertex_list, &edge_list);
    assert_eq!(g.size(), (5, 4));
    for k in 0..5 {
        assert!(k < g.number_of_vertexes());
    }
    assert_eq!(g.edges[0][1], Some(5));
    assert_eq!(g.edges[0][2], Some(2));
    assert_eq!(g.edges[2][3], Some(3));
    assert_eq!(g.edges[4][3], Some(1));
}
