use max_clique::graph::Graph;
use max_clique::io;
use max_clique::io::{build, is_printable, read, read_line, read_pairs};
use max_clique::io::{Arguments, Config, Line, ReadError, Solver};
use max_clique::text::{read_number, split_at, write_number};

fn arguments(filename: Option<&str>, solver: Option<&str>, save: bool) -> Arguments {
  Arguments {
    filename: filename.map(|s| s.to_string()),
    solver: solver.map(|s| s.to_string()),
    save,
  }
}

#[test]
fn config_needs_a_filename() {
  let config = Config::new(arguments(None, Some("BranchAndBound"), true));
  assert_eq!(config.err(), Some("you did not enter the filename"));
}

#[test]
fn config_defaults_to_backtracking() {
  let config = Config::new(arguments(Some("graphs/a.clq"), None, false)).unwrap();
  assert_eq!(config.get_filename(), "graphs/a.clq");
  assert_eq!(*config.get_solver(), Solver::Backtracking);
  assert_eq!(config.is_save(), false);
  let config = Config::new(arguments(Some("a"), Some("branchandbound"), true)).unwrap();
  assert_eq!(*config.get_solver(), Solver::Backtracking);
  assert_eq!(config.is_save(), true);
  let config = Config::new(arguments(Some("a"), Some("Backtracking"), true)).unwrap();
  assert_eq!(*config.get_solver(), Solver::Backtracking);
}

#[test]
fn config_takes_branch_and_bound_by_name() {
  let config = Config::new(arguments(Some("a"), Some("BranchAndBound"), false)).unwrap();
  assert_eq!(*config.get_solver(), Solver::BranchAndBound);
}

#[test]
fn split_gives_one_piece_more_than_separators() {
  assert_eq!(split_at(b"", b' '), vec![b"".to_vec()]);
  assert_eq!(split_at(b"ab", b' '), vec![b"ab".to_vec()]);
  assert_eq!(split_at(b"a b", b' '), vec![b"a".to_vec(), b"b".to_vec()]);
  assert_eq!(split_at(b" a  ", b' '), vec![b"".to_vec(), b"a".to_vec(), b"".to_vec(), b"".to_vec()]);
}

#[test]
fn numbers_are_read() {
  assert_eq!(read_number(b"0"), Some(0));
  assert_eq!(read_number(b"42"), Some(42));
  assert_eq!(read_number(b"+42"), Some(42));
  assert_eq!(read_number(b"007"), Some(7));
  assert_eq!(read_number(b" \t12\r"), Some(12));
  assert_eq!(read_number(b""), None);
  assert_eq!(read_number(b"+"), None);
  assert_eq!(read_number(b"-1"), None);
  assert_eq!(read_number(b"1 2"), None);
  assert_eq!(read_number(b"12a"), None);
  assert_eq!(read_number(b"++1"), None);
  assert_eq!(read_number(usize::MAX.to_string().as_bytes()), Some(usize::MAX));
  let too_large = format!("{}0", usize::MAX);
  assert_eq!(read_number(too_large.as_bytes()), None);
  assert_eq!(read_number(b"18446744073709551616"), None);
}

#[test]
fn numbers_are_written() {
  let mut out = b"n=".to_vec();
  write_number(&mut out, 0);
  out.push(b',');
  write_number(&mut out, 9);
  out.push(b',');
  write_number(&mut out, 10);
  out.push(b',');
  write_number(&mut out, 4096);
  assert_eq!(out, b"n=0,9,10,4096".to_vec());
  let mut out = Vec::new();
  write_number(&mut out, usize::MAX);
  assert_eq!(out, usize::MAX.to_string().into_bytes());
  assert_eq!(read_number(&out), Some(usize::MAX));
}

#[test]
fn lines_are_read() {
  assert_eq!(read_line(&b"".to_vec()), Line::Skipped);
  assert_eq!(read_line(&b"c a comment 1 2".to_vec()), Line::Skipped);
  assert_eq!(read_line(&b"c".to_vec()), Line::Skipped);
  assert_eq!(read_line(&b"e 1 2".to_vec()), Line::Pair(1, 2));
  assert_eq!(read_line(&b"p edge 5 6".to_vec()), Line::Pair(5, 6));
  assert_eq!(read_line(&b"e 1 2\r".to_vec()), Line::Pair(1, 2));
  assert_eq!(read_line(&b"1 2".to_vec()), Line::Short);
  assert_eq!(read_line(&b"cc".to_vec()), Line::Short);
  assert_eq!(read_line(&b"e 1 x".to_vec()), Line::Malformed);
  assert_eq!(read_line(&b"e 1 2 ".to_vec()), Line::Malformed);
  assert_eq!(read_line(&b" c 1 2".to_vec()), Line::Pair(1, 2));
}

#[test]
fn pairs_are_read_line_by_line() {
  let text = b"c first\np edge 3 2\n\ne 1 2\ne 2 3\n";
  assert_eq!(read_pairs(text), Ok(vec![(3, 2), (1, 2), (2, 3)]));
  assert_eq!(read_pairs(b""), Ok(vec![]));
  assert_eq!(read_pairs(b"p edge 3 2\ne 1\ne x y"), Err(ReadError::InvalidPair(2)));
  assert_eq!(read_pairs(b"p edge 3 2\ne x y\ne 1"), Err(ReadError::NotAPair(2)));
}

#[test]
fn graph_is_built_from_pairs() {
  let graph = build(&vec![(3, 2), (1, 2), (3, 2)]).unwrap();
  let mut expected = Graph::new(3);
  expected.insert_edge((1, 2));
  expected.insert_edge((3, 2));
  assert_eq!(graph, expected);
  assert_eq!(*graph.adjlst_of(2), vec![1, 3]);
  assert_eq!(graph.degree(), 2);
  assert_eq!(build(&vec![(2, 0)]).unwrap(), Graph::new(2));
}

#[test]
fn pairs_that_are_no_graph() {
  assert_eq!(build(&vec![]).err(), Some(ReadError::NoPairs));
  assert_eq!(build(&vec![(3, 2), (1, 2)]).err(), Some(ReadError::EdgeCount));
  assert_eq!(build(&vec![(3, 0), (1, 2)]).err(), Some(ReadError::EdgeCount));
  assert_eq!(build(&vec![(0, 0)]).err(), Some(ReadError::NoNodes));
  assert_eq!(build(&vec![(3, 2), (1, 2), (4, 1)]).err(), Some(ReadError::UnknownNode(4)));
  assert_eq!(build(&vec![(3, 2), (1, 0), (4, 1)]).err(), Some(ReadError::UnknownNode(0)));
  assert_eq!(build(&vec![(3, 1), (5, 6)]).err(), Some(ReadError::UnknownNode(5)));
  assert_eq!(build(&vec![(3, 1), (1, 6)]).err(), Some(ReadError::UnknownNode(6)));
}

#[test]
fn graph_file_is_read() {
  let text = b"c a graph of five nodes\np edge 5 6\ne 1 2\ne 1 3\ne 2 3\ne 2 4\ne 3 4\ne 1 5\n";
  let graph = read(text).unwrap();
  assert_eq!(graph.nlen(), 5);
  assert_eq!(graph.elen(), 6);
  assert_eq!(graph.degree(), 3);
  assert_eq!(*graph.adjlst_of(1), vec![2, 3, 5]);
  assert_eq!(read(b"c nothing\n").err(), Some(ReadError::NoPairs));
  assert_eq!(read(b"p edge 2 1\ne 1\n").err(), Some(ReadError::InvalidPair(2)));
  assert_eq!(read(b"p edge 2 1\ne 1 two\n").err(), Some(ReadError::NotAPair(2)));
  assert_eq!(read(b"p edge 2 2\ne 1 2\n").err(), Some(ReadError::EdgeCount));
  assert_eq!(read(b"p edge 0 0\n").err(), Some(ReadError::NoNodes));
  assert_eq!(read(b"p edge 2 1\ne 1 3\n").err(), Some(ReadError::UnknownNode(3)));
}

#[test]
fn result_is_written_from_the_smallest_node_up() {
  let mut graph = Graph::new_empty();
  graph.insert_node(12);
  graph.insert_node(3);
  graph.insert_node(100);
  let saving = io::write(b"/home/me", b"graphs/small/a.clq", &graph);
  assert_eq!(saving.folder, b"/home/me/max-clique-solutions/".to_vec());
  assert_eq!(saving.file, b"/home/me/max-clique-solutions/result_a.clq".to_vec());
  assert_eq!(saving.content, b"3 12 100 ".to_vec());
  let saving = io::write(b"", b"a.clq", &Graph::new_empty());
  assert_eq!(saving.folder, b"/max-clique-solutions/".to_vec());
  assert_eq!(saving.file, b"/max-clique-solutions/result_a.clq".to_vec());
  assert_eq!(saving.content, Vec::<u8>::new());
  let saving = io::write(b"/h", b"dir/", &Graph::new(1));
  assert_eq!(saving.file, b"/h/max-clique-solutions/result_".to_vec());
  assert_eq!(saving.content, b"1 ".to_vec());
}

#[test]
fn small_graphs_are_printable() {
  assert!(is_printable(&Graph::new(10)));
  assert!(is_printable(&Graph::new(11)));
  let mut graph = Graph::new(11);
  for a in 1..=11 { for b in (a + 1)..=11 { graph.insert_edge((a, b)); } }
  assert!(!is_printable(&graph));
  let mut graph = Graph::new(11);
  for b in 2..=11 { graph.insert_edge((1, b)); }
  assert!(is_printable(&graph));
  graph.insert_edge((2, 3));
  assert!(!is_printable(&graph));
}
