use graphix::GraphRep;
use graphix_io::{parse_edges, read, write_edges, ReadError, Weight};

fn w(negative: bool, digits: u64, scale: usize) -> Weight {
    Weight { negative, digits, scale }
}

fn text_of(g: &GraphRep<Weight>) -> String {
    String::from_utf8(graphix_io::write::write(g)).unwrap()
}

#[test]
fn malformed_lines_are_skipped() {
    let src = b"1 2 3.5\n# comment\n1 2\n1 2 3.5 4\n";
    let edges = parse_edges(src).unwrap();
    assert_eq!(edges, vec![(1, 2, w(false, 35, 1))]);
}

#[test]
fn sizing_follows_largest_endpoint() {
    let g = read(b"5 2 1.0").unwrap();
    assert_eq!(g.num_vertices(), 6);
    assert_eq!(g.num_edges(), 1);
}

#[test]
fn empty_source_gives_empty_graph_and_output() {
    let g = read(b"").unwrap();
    assert_eq!(g.num_edges(), 0);
    assert_eq!(g.num_vertices(), 0);
    assert!(graphix_io::write::write(&g).is_empty());
}

#[test]
fn blank_lines_only_give_empty_graph() {
    let g = read(b"\n\n  \t\n").unwrap();
    assert_eq!(g.num_vertices(), 0);
    assert!(graphix_io::write::write(&g).is_empty());
}

#[test]
fn self_loop_written_once() {
    let g = read(b"3 3 2.0\n").unwrap();
    assert_eq!(g.num_vertices(), 4);
    assert_eq!(g.edges_from(3).len(), 2);
    assert_eq!(text_of(&g), "3 3 2.0\n");
}

#[test]
fn mirrored_pair_written_once() {
    let g = read(b"1 2 5\n2 1 5\n").unwrap();
    assert_eq!(write_edges(&g), vec![(1, 2, w(false, 5, 0))]);
    assert_eq!(text_of(&g), "1 2 5\n");
}

#[test]
fn distinct_weights_are_not_collapsed() {
    let g = read(b"1 2 5\n2 1 7\n").unwrap();
    assert_eq!(text_of(&g), "1 2 5\n1 2 7\n");
}

#[test]
fn single_edge_written_once_not_from_both_ends() {
    let g = read(b"0 1 4\n").unwrap();
    assert_eq!(g.edges_from(1).len(), 1);
    assert_eq!(text_of(&g), "0 1 4\n");
}

#[test]
fn write_walks_vertices_in_order() {
    let g = read(b"2 0 1\n1 0 2\n").unwrap();
    assert_eq!(text_of(&g), "0 2 1\n0 1 2\n");
}

#[test]
fn round_trip_keeps_edges() {
    let src = b"0 1 1.5\n1 2 2.25\n2 0 -3\n3 3 0.05\n";
    let g1 = read(src).unwrap();
    let out1 = graphix_io::write::write(&g1);
    let g2 = read(&out1).unwrap();
    let out2 = graphix_io::write::write(&g2);
    let g3 = read(&out2).unwrap();
    let mut e1 = write_edges(&g1);
    let mut e3 = write_edges(&g3);
    e1.sort_by_key(|e| (e.0, e.1));
    e3.sort_by_key(|e| (e.0, e.1));
    assert_eq!(e1, e3);
    assert_eq!(g1.num_vertices(), g3.num_vertices());
}

#[test]
fn invalid_vertex_fails_read() {
    assert_eq!(parse_edges(b"a 2 3\n").unwrap_err(), ReadError::InvalidVertex);
    assert_eq!(parse_edges(b"1 -2 3\n").unwrap_err(), ReadError::InvalidVertex);
    assert!(matches!(read(b"1 2 3\nx y z\n"), Err(ReadError::InvalidVertex)));
}

#[test]
fn vertex_too_large_fails_read() {
    let src = b"99999999999999999999999 1 1\n";
    assert_eq!(parse_edges(src).unwrap_err(), ReadError::InvalidVertex);
    let max = format!("{} 0 1\n", usize::MAX);
    assert_eq!(parse_edges(max.as_bytes()).unwrap_err(), ReadError::InvalidVertex);
}

#[test]
fn invalid_weight_fails_read() {
    assert_eq!(parse_edges(b"1 2 x\n").unwrap_err(), ReadError::InvalidWeight);
    assert_eq!(parse_edges(b"1 2 1.2.3\n").unwrap_err(), ReadError::InvalidWeight);
    assert_eq!(parse_edges(b"1 2 -\n").unwrap_err(), ReadError::InvalidWeight);
    assert_eq!(parse_edges(b"1 2 .\n").unwrap_err(), ReadError::InvalidWeight);
    assert_eq!(
        parse_edges(b"1 2 99999999999999999999\n").unwrap_err(),
        ReadError::InvalidWeight
    );
}

#[test]
fn first_failing_line_decides_error() {
    assert_eq!(parse_edges(b"1 2 x\ny 2 3\n").unwrap_err(), ReadError::InvalidWeight);
    assert_eq!(parse_edges(b"y 2 x\n").unwrap_err(), ReadError::InvalidVertex);
}

#[test]
fn weights_parse_as_decimals() {
    let edges = parse_edges(b"0 1 -1.25\n0 1 +7\n0 1 0.05\n0 1 .5\n0 1 3.\n").unwrap();
    let ws: Vec<Weight> = edges.iter().map(|e| e.2).collect();
    assert_eq!(
        ws,
        vec![w(true, 125, 2), w(false, 7, 0), w(false, 5, 2), w(false, 5, 1), w(false, 3, 0)]
    );
}

#[test]
fn weights_are_written_with_their_scale() {
    let g = read(b"0 1 -1.25\n0 2 +7\n0 3 0.05\n0 4 .5\n0 5 007\n0 6 18446744073709551615\n")
        .unwrap();
    assert_eq!(
        text_of(&g),
        "0 1 -1.25\n0 2 7\n0 3 0.05\n0 4 0.5\n0 5 7\n0 6 18446744073709551615\n"
    );
}

#[test]
fn whitespace_and_crlf_separate_tokens() {
    let edges = parse_edges(b"  4\t 5   6 \r\n7 8 9").unwrap();
    assert_eq!(edges, vec![(4, 5, w(false, 6, 0)), (7, 8, w(false, 9, 0))]);
}

#[test]
fn duplicate_edges_are_all_inserted() {
    let g = read(b"0 1 2\n0 1 2\n").unwrap();
    assert_eq!(g.num_edges(), 2);
    assert_eq!(g.edges_from(0).len(), 2);
    assert_eq!(text_of(&g), "0 1 2\n");
}
