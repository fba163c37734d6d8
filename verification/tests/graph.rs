use max_clique::graph::Graph;

#[test]
fn default_graph() {
  let graph = Graph::default();
  assert_eq!(graph.is_empty(), true);
  assert_eq!(graph.degree(), 0);
  let mut nodes = graph.nodes(); nodes.sort();
  assert_eq!(nodes, Vec::<usize>::new());
}

#[test]
fn new_graph() {
  let graph = Graph::new(2);
  assert_eq!(graph.nlen(), 2);
  assert_eq!(graph.degree(), 0);
  assert_eq!(graph.is_empty(), false);
  let mut nodes = graph.nodes(); nodes.sort();
  assert_eq!(nodes, vec![1, 2]);
}

#[test]
fn adding_edges_i() {
  let mut graph = Graph::new(2);
  graph.insert_edge((1, 2));
  assert_eq!(graph.nlen(), 2);
  assert_eq!(graph.elen(), 1);
  assert_eq!(graph.degree(), 1);
  assert_eq!(graph.degree_of(1), 1);
  assert_eq!(graph.degree_of(2), 1);
  assert_eq!(graph.contains_node(1), true);
  assert_eq!(graph.contains_node(2), true);
  assert_eq!(graph.contains_edge((1, 2)), true);
  assert_eq!(graph.is_empty(), false);
  let mut nodes = graph.nodes(); nodes.sort();
  assert_eq!(nodes, vec![1, 2]);
  let mut edges = graph.edges(); edges.sort();
  assert_eq!(edges, vec![(1, 2)]);
}

#[test]
fn adding_edges_ii() {
  let mut graph = Graph::new(3);
  graph.insert_edge((1, 2));
  graph.insert_edge((1, 3));
  graph.insert_edge((2, 3));
  assert_eq!(graph.nlen(), 3);
  assert_eq!(graph.elen(), 3);
  assert_eq!(graph.degree(), 2);
  assert_eq!(graph.degree_of(1), 2);
  assert_eq!(graph.degree_of(2), 2);
  assert_eq!(graph.degree_of(3), 2);
  assert_eq!(graph.contains_node(1), true);
  assert_eq!(graph.contains_node(2), true);
  assert_eq!(graph.contains_node(3), true);
  assert_eq!(graph.contains_edge((1, 2)), true);
  assert_eq!(graph.contains_edge((1, 3)), true);
  assert_eq!(graph.contains_edge((2, 3)), true);
  assert_eq!(graph.is_empty(), false);
  let mut nodes = graph.nodes(); nodes.sort();
  assert_eq!(nodes, vec![1, 2, 3]);
  let mut edges = graph.edges(); edges.sort();
  assert_eq!(edges, vec![(1, 2), (1, 3), (2, 3)]);
}

#[test]
fn adding_edges_iii() {
  let mut graph = Graph::new(3);
  graph.insert_edge((1, 2));
  graph.insert_edge((1, 3));
  assert_eq!(graph.nlen(), 3);
  assert_eq!(graph.elen(), 2);
  assert_eq!(graph.degree(), 2);
  assert_eq!(graph.degree_of(1), 2);
  assert_eq!(graph.degree_of(2), 1);
  assert_eq!(graph.degree_of(3), 1);
  assert_eq!(graph.contains_node(1), true);
  assert_eq!(graph.contains_node(2), true);
  assert_eq!(graph.contains_node(3), true);
  assert_eq!(graph.contains_edge((1, 2)), true);
  assert_eq!(graph.contains_edge((1, 3)), true);
  assert_eq!(graph.is_empty(), false);
  let mut nodes = graph.nodes(); nodes.sort();
  assert_eq!(nodes, vec![1, 2, 3]);
  let mut edges = graph.edges(); edges.sort();
  assert_eq!(edges, vec![(1, 2), (1, 3)]);
}

#[test]
fn do_not_contains_node() {
  let mut graph = Graph::new(2);
  graph.insert_edge((1, 2));
  assert_eq!(graph.contains_node(0), false);
}

#[test]
fn do_not_contains_edge() {
  let mut graph = Graph::new(2);
  graph.insert_edge((1, 2));
  assert_eq!(graph.contains_edge((0, 1)), false);
}

#[test]
fn adjacency_list() {
  let mut graph = Graph::new(4);
  graph.insert_edge((1, 2));
  graph.insert_edge((1, 3));
  assert_eq!(*graph.adjlst_of(1), vec![2, 3]);
  assert_eq!(*graph.adjlst_of(2), vec![1]);
  assert_eq!(*graph.adjlst_of(3), vec![1]);
  assert_eq!(*graph.adjlst_of(4), Vec::<usize>::new());
}

#[test]
#[should_panic]
fn invalid_adjacency_list() {
  let mut graph = Graph::new(3);
  graph.insert_edge((1, 2));
  graph.insert_edge((2, 3));
  assert_eq!(*graph.adjlst_of(1), Vec::<usize>::new());
  assert_eq!(*graph.adjlst_of(1), vec![2, 3]);
}

#[test]
fn insert_node_i() {
  let mut graph = Graph::new(3);
  graph.insert_edge((1, 2));
  graph.insert_edge((1, 3));
  assert_eq!(*graph.adjlst_of(1), vec![2, 3]);
  assert_eq!(*graph.adjlst_of(2), vec![1]);
  assert_eq!(*graph.adjlst_of(3), vec![1]);
  let mut nodes = graph.nodes(); nodes.sort();
  assert_eq!(nodes, vec![1, 2, 3]);
  graph.insert_node(4);
  assert_eq!(*graph.adjlst_of(4), Vec::<usize>::new());
  let mut nodes = graph.nodes(); nodes.sort();
  assert_eq!(nodes, vec![1, 2, 3, 4]);
}

#[test]
fn insert_node_ii() {
  let mut graph = Graph::new(3);
  graph.insert_edge((1, 2));
  graph.insert_edge((1, 3));
  assert_eq!(*graph.adjlst_of(1), vec![2, 3]);
  assert_eq!(*graph.adjlst_of(2), vec![1]);
  assert_eq!(*graph.adjlst_of(3), vec![1]);
  let mut nodes = graph.nodes(); nodes.sort();
  assert_eq!(nodes, vec![1, 2, 3]);
  graph.insert_node(4);
  graph.insert_edge((4, 3));
  assert_eq!(*graph.adjlst_of(3), vec![1, 4]);
  assert_eq!(*graph.adjlst_of(4), vec![3]);
  let mut nodes = graph.nodes(); nodes.sort();
  assert_eq!(nodes, vec![1, 2, 3, 4]);
}

#[test]
fn remove_node_i() {
  let mut graph = Graph::new(3);
  graph.insert_edge((1, 2));
  graph.insert_edge((1, 3));
  assert_eq!(*graph.adjlst_of(1), vec![2, 3]);
  assert_eq!(*graph.adjlst_of(2), vec![1]);
  assert_eq!(*graph.adjlst_of(3), vec![1]);
  let mut nodes = graph.nodes(); nodes.sort();
  assert_eq!(nodes, vec![1, 2, 3]);
  graph.remove_node(2);
  assert_eq!(*graph.adjlst_of(1), vec![3]);
  assert_eq!(*graph.adjlst_of(3), vec![1]);
  let mut nodes = graph.nodes(); nodes.sort();
  assert_eq!(nodes, vec![1, 3]);
}

#[test]
fn remove_node_ii() {
  let mut graph = Graph::new(3);
  graph.insert_edge((1, 2));
  graph.insert_edge((1, 3));
  assert_eq!(*graph.adjlst_of(1), vec![2, 3]);
  assert_eq!(*graph.adjlst_of(2), vec![1]);
  assert_eq!(*graph.adjlst_of(3), vec![1]);
  let mut nodes = graph.nodes(); nodes.sort();
  assert_eq!(nodes, vec![1, 2, 3]);
  graph.remove_node(1);
  assert_eq!(*graph.adjlst_of(2), Vec::<usize>::new());
  assert_eq!(*graph.adjlst_of(3), Vec::<usize>::new());
  let mut nodes = graph.nodes(); nodes.sort();
  assert_eq!(nodes, vec![2, 3]);
}

#[test]
fn remove_edge() {
  let mut graph = Graph::new(3);
  graph.insert_edge((1, 2));
  graph.insert_edge((1, 3));
  assert_eq!(*graph.adjlst_of(1), vec![2, 3]);
  assert_eq!(*graph.adjlst_of(2), vec![1]);
  assert_eq!(*graph.adjlst_of(3), vec![1]);
  let mut edges = graph.edges(); edges.sort();
  assert_eq!(edges, vec![(1, 2), (1, 3)]);
  graph.remove_edge((1, 2));
  assert_eq!(*graph.adjlst_of(1), vec![3]);
  assert_eq!(*graph.adjlst_of(2), Vec::<usize>::new());
  assert_eq!(*graph.adjlst_of(3), vec![1]);
  let mut edges = graph.edges(); edges.sort();
  assert_eq!(edges, vec![(1, 3)]);
}

#[test]
fn is_complete_i() {
  let mut graph = Graph::new(3);
  graph.insert_edge((1, 2));
  graph.insert_edge((1, 3));
  graph.insert_edge((2, 3));
  assert!(graph.is_complete());
}

#[test]
fn is_complete_ii() {
  let mut graph = Graph::new(4);
  graph.insert_edge((1, 2));
  graph.insert_edge((1, 3));
  graph.insert_edge((1, 4));
  graph.insert_edge((2, 3));
  graph.insert_edge((2, 4));
  graph.insert_edge((3, 4));
  assert!(graph.is_complete());
}

#[test]
#[should_panic]
fn is_not_complete_i() {
  let mut graph = Graph::new(3);
  graph.insert_edge((1, 2));
  graph.insert_edge((2, 3));
  assert!(graph.is_complete());
}

#[test]
#[should_panic]
fn is_not_complete_ii() {
  let mut graph = Graph::new(4);
  graph.insert_edge((1, 2));
  graph.insert_edge((2, 3));
  assert!(graph.is_complete());
}

#[test]
fn new_graph_counts() {
  for n in 1..=6usize {
    let graph = Graph::new(n);
    assert_eq!(graph.nlen(), n);
    assert_eq!(graph.elen(), 0);
    assert_eq!(graph.degree(), 0);
    assert!(!graph.is_empty());
    let expected: Vec<usize> = (1..=n).rev().collect();
    assert_eq!(graph.nodes(), expected);
  }
}

#[test]
fn new_empty_graph() {
  let graph = Graph::new_empty();
  assert!(graph.is_empty());
  assert_eq!(graph.nlen(), 0);
  assert_eq!(graph.elen(), 0);
  assert_eq!(graph.degree(), 0);
  assert!(graph.is_complete());
  assert!(graph.is_simple());
  assert_eq!(graph, Graph::default());
}

#[test]
fn insert_edge_adds_one_to_each_end() {
  let mut graph = Graph::new(4);
  graph.insert_edge((1, 2));
  let before = (graph.degree_of(3), graph.degree_of(1));
  graph.insert_edge((3, 1));
  assert!(graph.contains_edge((3, 1)));
  assert!(graph.contains_edge((1, 3)));
  assert_eq!(graph.degree_of(3), before.0 + 1);
  assert_eq!(graph.degree_of(1), before.1 + 1);
  assert_eq!(*graph.adjlst_of(1), vec![2, 3]);
  assert_eq!(*graph.get_adjlst_of(3), vec![1]);
}

#[test]
fn loop_and_repeated_edge_are_listed_as_they_come() {
  let mut graph = Graph::new(2);
  graph.insert_edge((1, 1));
  assert_eq!(*graph.adjlst_of(1), vec![1, 1]);
  assert_eq!(graph.degree(), 2);
  assert!(!graph.is_simple());
  let mut graph = Graph::new(2);
  graph.insert_edge((1, 2));
  graph.insert_edge((2, 1));
  assert_eq!(*graph.adjlst_of(1), vec![2, 2]);
  assert_eq!(*graph.adjlst_of(2), vec![1, 1]);
  assert_eq!(graph.elen(), 2);
  assert!(!graph.is_simple());
}

#[test]
fn simple_graph_is_told() {
  let mut graph = Graph::new(3);
  graph.insert_edge((1, 2));
  graph.insert_edge((3, 2));
  assert!(graph.is_simple());
}

#[test]
fn degree_is_a_high_water_mark() {
  let mut graph = Graph::new(3);
  graph.insert_edge((1, 2));
  graph.insert_edge((1, 3));
  assert_eq!(graph.degree(), 2);
  graph.remove_edge((1, 3));
  assert_eq!(graph.degree(), 2);
  assert_eq!(graph.degree_of(1), 1);
  graph.remove_node(2);
  assert_eq!(graph.degree(), 2);
  assert_eq!(graph.degree_of(1), 0);
  assert_eq!(graph.nlen(), 2);
}

#[test]
fn remove_node_leaves_no_reference() {
  let mut graph = Graph::new(4);
  graph.insert_edge((1, 2));
  graph.insert_edge((3, 2));
  graph.insert_edge((2, 4));
  graph.insert_edge((1, 4));
  let before = graph.nlen();
  graph.remove_node(2);
  assert_eq!(graph.nlen(), before - 1);
  assert!(!graph.contains_node(2));
  for n in graph.nodes() {
    assert!(!graph.adjlst_of(n).contains(&2));
  }
  assert_eq!(*graph.adjlst_of(1), vec![4]);
  assert_eq!(*graph.adjlst_of(4), vec![1]);
  assert_eq!(graph.elen(), 1);
  assert!(graph.is_simple());
}

#[test]
fn remove_edge_keeps_the_order_of_the_rest() {
  let mut graph = Graph::new(4);
  graph.insert_edge((1, 2));
  graph.insert_edge((1, 3));
  graph.insert_edge((1, 4));
  graph.remove_edge((3, 1));
  assert_eq!(*graph.adjlst_of(1), vec![2, 4]);
  assert_eq!(*graph.adjlst_of(3), Vec::<usize>::new());
  assert!(!graph.contains_edge((1, 3)));
  assert!(!graph.contains_edge((3, 1)));
}

#[test]
fn contains_edge_asks_both_lists() {
  let mut graph = Graph::new(3);
  graph.insert_edge((1, 2));
  assert!(graph.contains_edge((2, 1)));
  assert!(!graph.contains_edge((1, 3)));
  assert!(!graph.contains_edge((1, 9)));
  assert!(!graph.contains_edge((9, 1)));
}

#[test]
fn complete_graphs() {
  assert!(Graph::new(1).is_complete());
  assert!(!Graph::new(2).is_complete());
  let mut graph = Graph::new(2);
  graph.insert_edge((1, 2));
  assert!(graph.is_complete());
  graph.insert_node(7);
  assert!(!graph.is_complete());
  graph.insert_edge((7, 1));
  graph.insert_edge((2, 7));
  assert!(graph.is_complete());
}

#[test]
fn nodes_come_from_the_largest_down() {
  let mut graph = Graph::new_empty();
  graph.insert_node(5);
  graph.insert_node(40);
  graph.insert_node(7);
  graph.insert_node(1);
  assert_eq!(graph.nodes(), vec![40, 7, 5, 1]);
}

#[test]
fn nodes_by_degree() {
  let mut graph = Graph::new(5);
  graph.insert_edge((2, 1));
  graph.insert_edge((2, 3));
  graph.insert_edge((2, 4));
  graph.insert_edge((4, 5));
  assert_eq!(graph.nodes_ord_by_degree(), vec![2, 4, 5, 3, 1]);
}

#[test]
fn edges_name_the_smaller_end_first() {
  let mut graph = Graph::new(4);
  graph.insert_edge((3, 1));
  graph.insert_edge((4, 2));
  graph.insert_edge((2, 1));
  assert_eq!(graph.edges(), vec![(2, 4), (1, 3), (1, 2)]);
}

#[test]
fn clone_is_equal() {
  let mut graph = Graph::new(3);
  graph.insert_edge((1, 2));
  let copy = graph.clone();
  assert_eq!(graph, copy);
  graph.insert_edge((2, 3));
  assert_ne!(graph, copy);
}
