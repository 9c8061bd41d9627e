use negweight::graph::reader::{parse_header, read_graph_from_file, ReadError};

fn lines(text: &[&str]) -> Vec<Vec<char>> {
    text.iter().map(|l| l.chars().collect()).collect()
}

#[test]
fn reads_a_directed_graph() {
    let file = lines(&["% a comment", "p 4 3", "1 2", "% another", "  3 4\t", "4 1"]);
    let (n, edges) = read_graph_from_file(&file, false).unwrap();
    assert_eq!(n, 4);
    assert_eq!(edges, vec![(0, 1), (2, 3), (3, 0)]);
}

#[test]
fn reads_an_undirected_graph_in_both_directions() {
    let file = lines(&["p 3 2 extra", "1 3", "+2 2"]);
    let (n, edges) = read_graph_from_file(&file, true).unwrap();
    assert_eq!(n, 3);
    assert_eq!(edges, vec![(0, 2), (2, 0), (1, 1), (1, 1)]);
}

#[test]
fn takes_fewer_edges_than_announced() {
    let file = lines(&["p 3 5", "1 2"]);
    assert_eq!(read_graph_from_file(&file, false), Ok((3, vec![(0, 1)])));
}

#[test]
fn parses_the_header() {
    assert_eq!(parse_header(&lines(&["graph 12 40"])), Ok((12, 40)));
    assert_eq!(parse_header(&lines(&["g 1 2 3 4"])), Ok((1, 2)));
    assert_eq!(parse_header(&lines(&[])), Err(ReadError::NoHeader));
    assert_eq!(parse_header(&lines(&["12 40"])), Err(ReadError::ShortHeader));
    assert_eq!(parse_header(&lines(&["p x 40"])), Err(ReadError::BadNodeCount));
    assert_eq!(parse_header(&lines(&["p 12 -4"])), Err(ReadError::BadEdgeCount));
    assert_eq!(parse_header(&lines(&["p  12 40"])), Err(ReadError::BadNodeCount));
    assert_eq!(parse_header(&lines(&["p 12 40 "])), Ok((12, 40)));
    assert_eq!(parse_header(&lines(&["p 12 40\r"])), Err(ReadError::BadEdgeCount));
    assert_eq!(
        parse_header(&lines(&["p 99999999999999999999999 1"])),
        Err(ReadError::BadNodeCount)
    );
}

#[test]
fn reports_what_is_wrong_with_a_file() {
    let read = |text: &[&str]| read_graph_from_file(&lines(text), false);
    assert_eq!(read(&["% only", "% comments"]), Err(ReadError::NoHeader));
    assert_eq!(read(&["p 3"]), Err(ReadError::ShortHeader));
    assert_eq!(read(&["p 3 1", "1 2", "2 3"]), Err(ReadError::TooManyEdges));
    assert_eq!(read(&["p 3 2", "1 2 3"]), Err(ReadError::BadEdge(1)));
    assert_eq!(read(&["p 3 2", "1 2", "1  2"]), Err(ReadError::BadEdge(2)));
    assert_eq!(read(&["p 3 2", "a 2"]), Err(ReadError::BadFirstNode(1)));
    assert_eq!(read(&["p 3 2", "1 2", "1 b"]), Err(ReadError::BadSecondNode(2)));
    assert_eq!(read(&["p 3 2", "1 4"]), Err(ReadError::NodeOutOfRange(1)));
    assert_eq!(read(&["p 3 2", "0 1"]), Err(ReadError::NodeOutOfRange(1)));
    assert_eq!(read(&["p 3 2", ""]), Err(ReadError::BadEdge(1)));
}
