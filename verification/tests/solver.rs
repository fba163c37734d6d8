use max_clique::graph::Graph;
use max_clique::io::Solver;
use max_clique::solver;

#[test]
#[should_panic]
fn backtracking_empty_graph() {
  let graph = Graph::new_empty();
  let _ = solver::solve(&graph, &Solver::Backtracking).unwrap();
}

#[test]
fn backtracking_1_clique() {
  let clique = Graph::new(1);
  let result = solver::solve(&clique, &Solver::Backtracking).unwrap();
  assert_eq!(clique, result);
}

#[test]
fn backtracking_2_clique() {
  let mut clique = Graph::new(2);
  clique.insert_edge((1, 2));
  let result = solver::solve(&clique, &Solver::Backtracking).unwrap();
  assert_eq!(clique, result);
}

#[test]
fn backtracking_3_clique_i() {
  let mut clique = Graph::new(3);
  clique.insert_edge((1, 2));
  clique.insert_edge((1, 3));
  clique.insert_edge((3, 2));
  let result = solver::solve(&clique, &Solver::Backtracking).unwrap();
  let mut clique_nodes = clique.nodes(); clique_nodes.sort();
  let mut result_nodes = result.nodes(); result_nodes.sort();
  assert_eq!(clique_nodes, result_nodes);
  let mut clique_edges = clique.edges(); clique_edges.sort();
  let mut result_edges = result.edges(); result_edges.sort();
  assert_eq!(clique_edges, result_edges);
}

#[test]
fn backtracking_3_clique_ii() {
  let mut graph = Graph::new(5);
  graph.insert_edge((1, 2));
  graph.insert_edge((1, 3));
  graph.insert_edge((3, 2));
  graph.insert_edge((2, 4));
  graph.insert_edge((3, 4));
  graph.insert_edge((1, 5));
  let mut clique = Graph::new(3);
  clique.insert_edge((1, 2));
  clique.insert_edge((1, 3));
  clique.insert_edge((3, 2));
  let result = solver::solve(&graph, &Solver::Backtracking).unwrap();
  let mut clique_nodes = clique.nodes(); clique_nodes.sort();
  let mut result_nodes = result.nodes(); result_nodes.sort();
  assert_eq!(clique_nodes, result_nodes);
  let mut clique_edges = clique.edges(); clique_edges.sort();
  let mut result_edges = result.edges(); result_edges.sort();
  assert_eq!(clique_edges, result_edges);
}

fn sorted_nodes(graph: &Graph) -> Vec<usize> {
  let mut nodes = graph.nodes(); nodes.sort();
  nodes
}

fn sorted_edges(graph: &Graph) -> Vec<(usize, usize)> {
  let mut edges = graph.edges(); edges.sort();
  edges
}

fn house() -> Graph {
  let mut graph = Graph::new(5);
  graph.insert_edge((1, 2));
  graph.insert_edge((1, 3));
  graph.insert_edge((2, 3));
  graph.insert_edge((2, 4));
  graph.insert_edge((3, 4));
  graph.insert_edge((1, 5));
  graph
}

#[test]
fn branch_and_bound_empty_graph() {
  let graph = Graph::new_empty();
  assert_eq!(solver::solve(&graph, &Solver::BranchAndBound).err(), Some("the graph is empty"));
  assert_eq!(solver::solve(&graph, &Solver::Backtracking).err(), Some("the graph is empty"));
}

#[test]
fn branch_and_bound_1_clique() {
  let clique = Graph::new(1);
  let result = solver::solve(&clique, &Solver::BranchAndBound).unwrap();
  assert_eq!(clique, result);
}

#[test]
fn branch_and_bound_2_clique() {
  let mut clique = Graph::new(2);
  clique.insert_edge((1, 2));
  let result = solver::solve(&clique, &Solver::BranchAndBound).unwrap();
  assert_eq!(clique, result);
}

#[test]
fn branch_and_bound_3_clique() {
  let result = solver::solve(&house(), &Solver::BranchAndBound).unwrap();
  assert_eq!(result.nlen(), 3);
  assert_eq!(result.elen(), 3);
  assert_eq!(sorted_nodes(&result), vec![1, 2, 3]);
  assert_eq!(sorted_edges(&result), vec![(1, 2), (1, 3), (2, 3)]);
  assert_eq!(result.degree(), 2);
  assert!(result.is_complete());
}

#[test]
fn backtracking_triangle_counts() {
  let result = solver::solve(&house(), &Solver::Backtracking).unwrap();
  assert_eq!(result.nlen(), 3);
  assert_eq!(result.elen(), 3);
  assert_eq!(result.degree(), 2);
  assert!(result.is_complete());
}

#[test]
fn strategies_called_directly() {
  let graph = house();
  let a = solver::backtracking::solve(&graph);
  let b = solver::branch_and_bound::solve(&graph);
  assert_eq!(sorted_nodes(&a), vec![1, 2, 3]);
  assert_eq!(sorted_nodes(&b), vec![1, 2, 3]);
}

#[test]
fn backtracking_keeps_the_last_of_equal_cliques() {
  // Two triangles, {1, 2, 3} and {4, 5, 6}: the search goes from the
  // largest identifier down and keeps the one that it meets last.
  let mut graph = Graph::new(6);
  graph.insert_edge((1, 2));
  graph.insert_edge((1, 3));
  graph.insert_edge((2, 3));
  graph.insert_edge((4, 5));
  graph.insert_edge((4, 6));
  graph.insert_edge((5, 6));
  graph.insert_edge((3, 4));
  let result = solver::solve(&graph, &Solver::Backtracking).unwrap();
  assert_eq!(sorted_nodes(&result), vec![1, 2, 3]);
}

#[test]
fn branch_and_bound_keeps_the_first_of_equal_cliques() {
  // The nodes by degree: 4 and 3 (three neighbours), then 6, 5, 2, 1.
  // The first triangle that is met holds 4.
  let mut graph = Graph::new(6);
  graph.insert_edge((1, 2));
  graph.insert_edge((1, 3));
  graph.insert_edge((2, 3));
  graph.insert_edge((4, 5));
  graph.insert_edge((4, 6));
  graph.insert_edge((5, 6));
  graph.insert_edge((3, 4));
  let result = solver::solve(&graph, &Solver::BranchAndBound).unwrap();
  assert_eq!(sorted_nodes(&result), vec![4, 5, 6]);
}

#[test]
fn strategies_agree_on_size() {
  let mut graph = Graph::new(7);
  let edges = [(1, 2), (1, 3), (1, 4), (2, 3), (2, 4), (3, 4), (4, 5), (5, 6), (6, 7), (5, 7), (3, 7)];
  for e in edges.iter() { graph.insert_edge(*e); }
  let a = solver::solve(&graph, &Solver::Backtracking).unwrap();
  let b = solver::solve(&graph, &Solver::BranchAndBound).unwrap();
  assert_eq!(a.nlen(), 4);
  assert_eq!(b.nlen(), 4);
  assert_eq!(sorted_nodes(&a), vec![1, 2, 3, 4]);
  assert_eq!(sorted_nodes(&b), vec![1, 2, 3, 4]);
  assert_eq!(a.elen(), 6);
  assert_eq!(b.degree(), 3);
}

#[test]
fn star_graph_goes_to_the_search() {
  let mut graph = Graph::new(5);
  graph.insert_edge((1, 2));
  graph.insert_edge((1, 3));
  graph.insert_edge((1, 4));
  graph.insert_edge((1, 5));
  assert_eq!(graph.degree(), 4);
  let result = solver::solve(&graph, &Solver::Backtracking).unwrap();
  assert_eq!(sorted_nodes(&result), vec![1, 2]);
  assert_eq!(sorted_edges(&result), vec![(1, 2)]);
  let result = solver::solve(&graph, &Solver::BranchAndBound).unwrap();
  assert_eq!(sorted_nodes(&result), vec![1, 5]);
  assert_eq!(sorted_edges(&result), vec![(1, 5)]);
}

#[test]
fn path_of_two_edges_gives_a_pair_at_once() {
  let mut graph = Graph::new(3);
  graph.insert_edge((1, 2));
  graph.insert_edge((2, 3));
  assert_eq!(graph.degree(), 2);
  assert_eq!(graph.elen(), 2);
  for strategy in [Solver::Backtracking, Solver::BranchAndBound].iter() {
    let result = solver::solve(&graph, strategy).unwrap();
    assert_eq!(result.nodes(), vec![3, 2]);
    assert_eq!(*result.adjlst_of(3), vec![2]);
    assert_eq!(*result.adjlst_of(2), vec![3]);
    assert_eq!(result.degree(), 1);
  }
}

#[test]
fn pair_comes_from_the_largest_node_with_a_neighbour() {
  // Node 4 has no neighbour; the pair is taken at node 3.
  let mut graph = Graph::new(4);
  graph.insert_edge((2, 1));
  graph.insert_edge((2, 3));
  let result = solver::solve(&graph, &Solver::Backtracking).unwrap();
  assert_eq!(result.nodes(), vec![3, 2]);
}

#[test]
fn stale_degree_without_edges_goes_to_the_search() {
  let mut graph = Graph::new(3);
  graph.insert_edge((1, 2));
  graph.insert_edge((2, 3));
  graph.remove_edge((1, 2));
  graph.remove_edge((2, 3));
  assert_eq!(graph.degree(), 2);
  assert_eq!(graph.elen(), 0);
  let result = solver::solve(&graph, &Solver::Backtracking).unwrap();
  assert_eq!(result.nodes(), vec![1]);
  assert_eq!(result.elen(), 0);
  let result = solver::solve(&graph, &Solver::BranchAndBound).unwrap();
  assert_eq!(result.nlen(), 0);
}

#[test]
fn graph_without_edges() {
  let graph = Graph::new(3);
  let result = solver::solve(&graph, &Solver::Backtracking).unwrap();
  assert_eq!(result.nlen(), 1);
  assert_eq!(result.nodes(), vec![1]);
  let result = solver::solve(&graph, &Solver::BranchAndBound).unwrap();
  assert!(result.is_empty());
}

#[test]
fn complete_graph_is_its_own_clique() {
  let mut graph = Graph::new(5);
  for a in 1..=5 { for b in (a + 1)..=5 { graph.insert_edge((a, b)); } }
  for strategy in [Solver::Backtracking, Solver::BranchAndBound].iter() {
    let result = solver::solve(&graph, strategy).unwrap();
    assert_eq!(sorted_nodes(&result), vec![1, 2, 3, 4, 5]);
    assert_eq!(result.elen(), 10);
    assert_eq!(result.degree(), 4);
  }
}

#[test]
fn result_is_a_subgraph_of_its_own() {
  let graph = house();
  let result = solver::solve(&graph, &Solver::Backtracking).unwrap();
  assert!(result.is_simple());
  for n in result.nodes() {
    assert!(graph.contains_node(n));
    for m in result.adjlst_of(n).iter() {
      assert!(graph.contains_edge((n, *m)));
    }
  }
}

#[test]
fn backtracking_lists_the_neighbours_as_they_were_added() {
  // The search adds 3, then 2, then 1: each node gets the neighbours that
  // are there already from the largest down, then those that come after.
  let result = solver::solve(&house(), &Solver::Backtracking).unwrap();
  assert_eq!(*result.adjlst_of(3), vec![2, 1]);
  assert_eq!(*result.adjlst_of(2), vec![3, 1]);
  assert_eq!(*result.adjlst_of(1), vec![3, 2]);
}

#[test]
fn branch_and_bound_lists_the_neighbours_as_they_were_added() {
  // By degree the nodes are 3, 2, 1 (three neighbours each), then 4, 5.
  let graph = house();
  assert_eq!(graph.nodes_ord_by_degree(), vec![3, 2, 1, 4, 5]);
  let result = solver::solve(&graph, &Solver::BranchAndBound).unwrap();
  assert_eq!(*result.adjlst_of(3), vec![2, 1]);
  assert_eq!(*result.adjlst_of(2), vec![3, 1]);
  assert_eq!(*result.adjlst_of(1), vec![3, 2]);
  // Here the order by degree is not the order by identifier.
  let mut graph = Graph::new(5);
  graph.insert_edge((1, 2));
  graph.insert_edge((1, 3));
  graph.insert_edge((2, 3));
  graph.insert_edge((1, 4));
  graph.insert_edge((2, 5));
  graph.insert_edge((1, 5));
  assert_eq!(graph.nodes_ord_by_degree(), vec![1, 2, 5, 3, 4]);
  let result = solver::solve(&graph, &Solver::BranchAndBound).unwrap();
  assert_eq!(sorted_nodes(&result), vec![1, 2, 5]);
  assert_eq!(*result.adjlst_of(1), vec![2, 5]);
  assert_eq!(*result.adjlst_of(2), vec![1, 5]);
  assert_eq!(*result.adjlst_of(5), vec![2, 1]);
}
