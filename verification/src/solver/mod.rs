//! The search for a maximum clique, and the choice between its strategies.

pub mod backtracking;
pub mod branch_and_bound;
pub mod search;

use crate::adjacency::{
    degree_order, degree_rank, edge_count, has_no_edge, is_clique, is_complete, is_induced,
    is_maximum_clique, is_simple, lemma_induced_complete, lemma_neighbours,
    lemma_pair_is_maximum, node_order, total_degree,
};
use crate::graph::Graph;
use crate::io::Solver;
use crate::order::{
    lemma_descending_exists, lemma_descending_is, lemma_descending_len, lemma_ranking_exists,
    lists_descending,
};
use crate::solver::backtracking::is_latest_maximum_clique;
use crate::solver::branch_and_bound::is_first_maximum_clique;
use crate::solver::search::{built, is_settled, lemma_best_is_maximum};
use vstd::prelude::*;
use vstd::set_lib::lemma_len_subset;

verus! {

/// The graph is its own maximum clique by its size alone: it has one node,
/// or two nodes and one edge.
pub open spec fn is_whole_answer(adj: Map<usize, Seq<usize>>) -> bool {
    adj.dom().len() == 1 || (adj.dom().len() == 2 && edge_count(adj) == 1)
}

/// A pair of adjacent nodes is returned without a search: the graph degree
/// is two, there are at most two edges, and some node has a neighbour.
pub open spec fn is_pair_answer(adj: Map<usize, Seq<usize>>, degree: usize) -> bool {
    !is_whole_answer(adj) && degree == 2 && edge_count(adj) <= 2 && !has_no_edge(adj)
}

/// `a` is the node with the largest identifier among those that have a
/// neighbour.
pub open spec fn is_first_linked(adj: Map<usize, Seq<usize>>, a: usize) -> bool {
    &&& adj.contains_key(a)
    &&& adj[a].len() > 0
    &&& forall|x: usize| adj.contains_key(x) && x > a ==> (#[trigger] adj[x]).len() == 0
}

/// The node with the largest identifier among those that have a neighbour.
pub open spec fn first_linked(adj: Map<usize, Seq<usize>>) -> usize {
    choose|a: usize| is_first_linked(adj, a)
}

/// The graph of the two nodes `a` and `b` and the edge between them.
pub open spec fn pair_graph(a: usize, b: usize) -> Map<usize, Seq<usize>> {
    Map::<usize, Seq<usize>>::empty().insert(a, seq![b]).insert(b, seq![a])
}

/// `g` is what `solve` returns for `graph` and the strategy `solver`.
pub open spec fn is_solution(graph: &Graph, solver: Solver, g: &Graph) -> bool {
    &&& is_induced(g@, graph@)
    &&& is_complete(g@)
    &&& is_whole_answer(graph@) ==> g@ == graph@ && g.degree() == graph.degree()
    &&& is_pair_answer(graph@, graph.degree()) ==> g@ == pair_graph(
        first_linked(graph@),
        graph@[first_linked(graph@)][0],
    ) && g.degree() == 1
    &&& !is_whole_answer(graph@) && !is_pair_answer(graph@, graph.degree()) ==> match solver {
        Solver::Backtracking => is_latest_maximum_clique(graph@, g@.dom()) && g@ == built(
            graph@,
            node_order(graph@),
            g@.dom(),
        ),
        Solver::BranchAndBound => (if has_no_edge(graph@) {
            g@.dom().len() == 0
        } else {
            is_first_maximum_clique(graph@, g@.dom())
        }) && g@ == built(graph@, degree_order(graph@), g@.dom()),
    }
    &&& is_whole_answer(graph@) || !(solver == Solver::BranchAndBound && has_no_edge(graph@))
        ==> is_maximum_clique(graph@, g@.dom())
    &&& !is_whole_answer(graph@) ==> is_settled(g) && (g@.dom().len() > 0 ==> g.degree() + 1
        == g@.dom().len())
}

/// Returns a maximum clique of `graph` as a graph of its own, or an error
/// where `graph` has no node.
///
/// A graph of one node, or of two nodes and one edge, is returned as it
/// is. Where the graph degree is two, there are at most two edges and some
/// node has a neighbour, the node with the largest identifier among those
/// with a neighbour is returned with its first neighbour and their edge.
/// Every other graph is handed to the strategy that `solver` names; branch
/// and bound returns the graph without nodes where `graph` has no edge.
pub fn solve(graph: &Graph, solver: &Solver) -> (r: Result<Graph, &'static str>)
    requires
        is_simple(graph@),
    ensures
        r is Err <==> graph@.dom().len() == 0,
        r matches Err(e) ==> e@ == "the graph is empty"@,
        r matches Ok(g) ==> is_solution(graph, *solver, &g),
{
    let count = graph.nlen();
    if count == 0 {
        return Err("the graph is empty");
    }
    if count == 1 {
        proof {
            lemma_whole(graph);
        }
        return Ok(graph.clone());
    }
    let edges = graph.total_degree() / 2;
    if count == 2 && edges == 1 {
        proof {
            lemma_whole(graph);
        }
        return Ok(graph.clone());
    }
    if graph.degree() == 2 && edges <= 2 {
        match linked_node(graph) {
            Some(n1) => {
                let n2 = graph.adjlst_of(n1)[0];
                let mut solution = Graph::default();
                solution.insert_node(n1);
                proof {
                    assert(graph@[n1].contains(n2)) by {
                        assert(graph@[n1][0] == n2);
                    }
                    assert(n1 != n2);
                }
                solution.insert_node(n2);
                solution.insert_edge((n1, n2));
                proof {
                    assert(first_linked(graph@) == n1) by {
                        assert(is_first_linked(graph@, n1));
                    }
                    assert(solution@[n1] =~= seq![n2]);
                    assert(solution@[n2] =~= seq![n1]);
                    assert(solution@ =~= pair_graph(n1, n2));
                    lemma_pair_is_maximum(graph@, n1, n2);
                    assert(solution@.dom() =~= set![n1, n2]);
                    assert(is_simple(solution@)) by {
                        assert forall|a: usize| #[trigger]
                            solution@.contains_key(a) implies solution@[a].no_duplicates()
                            && !solution@[a].contains(a) by {}
                    }
                    assert(is_induced(solution@, graph@));
                    lemma_induced_complete(solution@, graph@);
                }
                return Ok(solution);
            },
            None => {},
        }
    }
    match solver {
        Solver::Backtracking => Ok(backtracking::solve(graph)),
        Solver::BranchAndBound => Ok(branch_and_bound::solve(graph)),
    }
}

/// The maximum clique that the search over the nodes by their identifiers
/// meets last, and the one that the search over the nodes by their degree
/// meets first, have one size.
pub proof fn lemma_searches_agree(
    adj: Map<usize, Seq<usize>>,
    latest: Set<usize>,
    first: Set<usize>,
)
    requires
        adj.dom().finite(),
        is_latest_maximum_clique(adj, latest),
        is_first_maximum_clique(adj, first),
    ensures
        latest.len() == first.len(),
        is_maximum_clique(adj, latest),
        is_maximum_clique(adj, first),
{
    lemma_descending_exists(adj.dom());
    lemma_ranking_exists(degree_rank(adj), adj.dom());
    assert forall|x: usize| adj.contains_key(x) implies node_order(adj).contains(x)
        && degree_order(adj).contains(x) by {
        assert(node_order(adj).to_set().contains(x));
        assert(degree_order(adj).to_set().contains(x));
    }
    lemma_best_is_maximum(adj, node_order(adj), true, latest);
    lemma_best_is_maximum(adj, degree_order(adj), false, first);
}

/// Backtracking and branch and bound return cliques of one size for every
/// simple graph, but for one that has two nodes or more and no edge.
pub proof fn lemma_strategies_agree(
    graph: &Graph,
    by_backtracking: &Graph,
    by_branch_and_bound: &Graph,
)
    requires
        is_simple(graph@),
        has_no_edge(graph@) ==> graph@.dom().len() <= 1,
        is_solution(graph, Solver::Backtracking, by_backtracking),
        is_solution(graph, Solver::BranchAndBound, by_branch_and_bound),
    ensures
        by_backtracking@.dom().len() == by_branch_and_bound@.dom().len(),
{
    if has_no_edge(graph@) && !is_whole_answer(graph@) {
        assert(graph@.dom().len() == 0);
        assert(is_pair_answer(graph@, graph.degree()) == false);
        assert(graph@.dom() =~= Set::<usize>::empty());
        assert(by_backtracking@.dom() =~= Set::<usize>::empty()) by {
            assert forall|x: usize| !by_backtracking@.dom().contains(x) by {
                if by_backtracking@.contains_key(x) {
                    assert(graph@.contains_key(x));
                }
            }
        }
    }
}

/// Returns the node with the largest identifier among those that have a
/// neighbour, if any node has one.
fn linked_node(graph: &Graph) -> (r: Option<usize>)
    ensures
        match r {
            Some(a) => is_first_linked(graph@, a),
            None => has_no_edge(graph@),
        },
{
    let all = graph.nodes();
    let mut i: usize = 0;
    while i < all.len()
        invariant
            i <= all.len(),
            lists_descending(all@, graph@.dom()),
            forall|k: int| 0 <= k < i ==> graph@[#[trigger] all@[k]].len() == 0,
        decreases all.len() - i,
    {
        let a = all[i];
        assert(all@.contains(a));
        assert(graph@.dom().contains(a));
        if graph.degree_of(a) > 0 {
            proof {
                lemma_descending_len(all@);
                assert forall|x: usize| graph@.contains_key(x) && x > a implies (
                #[trigger] graph@[x]).len() == 0 by {
                    assert(all@.to_set().contains(x));
                    let k = choose|k: int| 0 <= k < all@.len() && all@[k] == x;
                    if k > i {
                        assert(all@[i as int] > all@[k]);
                    }
                }
            }
            return Some(a);
        }
        i += 1;
    }
    proof {
        assert forall|x: usize| graph@.contains_key(x) implies (#[trigger] graph@[x]).len()
            == 0 by {
            assert(all@.to_set().contains(x));
            let k = choose|k: int| 0 <= k < all@.len() && all@[k] == x;
        }
    }
    None
}

/// A simple graph of one node, or of two nodes and one edge, is complete,
/// and all its nodes together are its maximum clique.
proof fn lemma_whole(graph: &Graph)
    requires
        is_simple(graph@),
        is_whole_answer(graph@),
    ensures
        is_induced(graph@, graph@),
        is_complete(graph@),
        is_maximum_clique(graph@, graph@.dom()),
{
    let adj = graph@;
    lemma_descending_exists(adj.dom());
    let order = node_order(adj);
    lemma_descending_is(order, adj.dom());
    assert forall|a: usize| #[trigger] adj.contains_key(a) implies adj[a].len() + 1
        == adj.dom().len() by {
        lemma_neighbours(adj, a);
        if adj.dom().len() == 2 {
            let x = order[0];
            let y = order[1];
            assert(order.contains(x) && order.contains(y));
            lemma_neighbours(adj, x);
            lemma_neighbours(adj, y);
            assert(order.drop_last().drop_last() =~= Seq::<usize>::empty());
            assert(order.drop_last().last() == x);
            assert(total_degree(adj, order.drop_last()) == adj[x].len()) by {
                assert(total_degree(adj, order.drop_last().drop_last()) == 0);
            }
            assert(total_degree(adj, order) == adj[x].len() + adj[y].len());
            assert(order.to_set().contains(a));
            let k = choose|k: int| 0 <= k < order.len() && order[k] == a;
        }
    }
    lemma_induced_complete(adj, adj);
    assert forall|t: Set<usize>| #[trigger] is_clique(adj, t) implies t.len()
        <= adj.dom().len() by {
        lemma_len_subset(t, adj.dom());
    }
}

} // verus!
