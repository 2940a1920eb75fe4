use graph::flow_network_from_dicaps;
use graph::flow_network_from_txt;
use graph::parse_dicaps;
use graph::parse_txt;
use graph::FlowGraph;
use graph::Search;

const DICAPS_SAMPLE: &str = "p max 4 5\nn 0 s\nn 1 t\na 0 2 5\na 0 3 5\na 2 3 1\na 2 1 5\na 3 1 5\n";

#[test]
fn test_parse_dicaps_sample() {
    let parsed = parse_dicaps(DICAPS_SAMPLE.as_bytes()).unwrap();
    assert_eq!(parsed.0, 0);
    assert_eq!(parsed.1, 1);
    assert_eq!(parsed.2, 4);
    let edges = parsed.3;
    assert_eq!(edges.len(), 5);
    assert_eq!(edges[0].0, 0);
    assert_eq!(edges[0].1, 2);
    assert_eq!(edges[0].2.capacity, 5);
    assert_eq!(edges[0].2.flow, 0);
    assert_eq!(edges[2].0, 2);
    assert_eq!(edges[2].1, 3);
    assert_eq!(edges[2].2.capacity, 1);
}

#[test]
fn test_dicaps_maxflow_end_to_end() {
    let (source, sink, mut g) = flow_network_from_dicaps(DICAPS_SAMPLE.as_bytes()).unwrap();
    assert_eq!((source, sink), (0, 1));
    assert_eq!(g.max_flow(source, sink, Search::Bfs), 10);
    let (source2, sink2, mut g2) = flow_network_from_dicaps(DICAPS_SAMPLE.as_bytes()).unwrap();
    assert_eq!(g2.max_flow(source2, sink2, Search::Dfs), 10);
}

#[test]
fn test_dicaps_rejects_malformed_line() {
    let bad = "p max 2 1\nn 0 s\nn 1 t\nq 0 1 5\n";
    assert!(parse_dicaps(bad.as_bytes()).is_none());
}

#[test]
fn test_dicaps_rejects_count_mismatch() {
    let bad = "p max 2 3\nn 0 s\nn 1 t\na 0 1 5\n";
    assert!(parse_dicaps(bad.as_bytes()).is_none());
}

#[test]
fn test_dicaps_rejects_missing_source() {
    let bad = "p max 2 1\nn 1 t\na 0 1 5\n";
    assert!(parse_dicaps(bad.as_bytes()).is_none());
}

#[test]
fn test_dicaps_rejects_uncovered_vertex() {
    // three vertices declared, only two occur in edges
    let bad = "p max 3 1\nn 0 s\nn 1 t\na 0 1 5\n";
    assert!(parse_dicaps(bad.as_bytes()).is_none());
}

#[test]
fn test_dicaps_zero_capacity_counts_but_is_dropped() {
    let text = "p max 2 2\nn 0 s\nn 1 t\na 0 1 5\na 1 0 0\n";
    let parsed = parse_dicaps(text.as_bytes()).unwrap();
    assert_eq!(parsed.3.len(), 1);
}

#[test]
fn test_dicaps_stops_at_lone_a() {
    let text = "p max 2 1\nn 0 s\nn 1 t\na 0 1 5\na\nthis line is never read\n";
    let parsed = parse_dicaps(text.as_bytes()).unwrap();
    assert_eq!(parsed.2, 2);
    assert_eq!(parsed.3.len(), 1);
}

#[test]
fn test_parse_txt_sample() {
    let text = "4\n0 5 5 0\n0 0 0 0\n0 5 0 1\n0 5 0 0\n";
    let (nv, edges) = parse_txt(text.as_bytes()).unwrap();
    assert_eq!(nv, 4);
    assert_eq!(edges.len(), 5);
    assert_eq!(edges[0].0, 0);
    assert_eq!(edges[0].1, 1);
    assert_eq!(edges[0].2.capacity, 5);
}

#[test]
fn test_txt_maxflow_end_to_end() {
    // row 0 feeds rows 2 and 3, which both feed the sink column
    let text = "4\n0 0 5 5\n0 0 0 0\n0 5 0 1\n0 5 0 0\n";
    let (source, sink, mut g) = flow_network_from_txt(text.as_bytes()).unwrap();
    assert_eq!((source, sink), (0, 3));
    let total = g.max_flow(source, sink, Search::Bfs);
    let (_, _, mut g2) = flow_network_from_txt(text.as_bytes()).unwrap();
    assert_eq!(total, g2.max_flow(0, 3, Search::Dfs));
    assert_eq!(total, 6);
}

#[test]
fn test_txt_rejects_bad_token() {
    let bad = "2\n0 x\n0 0\n";
    assert!(parse_txt(bad.as_bytes()).is_none());
}

#[test]
fn test_txt_rejects_empty_input() {
    assert!(parse_txt("".as_bytes()).is_none());
}

#[test]
fn test_txt_rejects_wide_row() {
    // a positive entry outside the declared square
    let bad = "2\n0 0 7\n0 0\n";
    assert!(parse_txt(bad.as_bytes()).is_none());
}
