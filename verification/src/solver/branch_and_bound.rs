//! The search that takes the nodes by their degree and stops where no node
//! that is left can be part of a larger clique.

use crate::adjacency::{
    degree_order, degree_rank, has_no_edge, is_clique, is_complete, is_induced, is_maximum_clique,
    is_simple, lemma_clique_subset, lemma_induced_complete, lists_within,
};
use crate::graph::Graph;
use crate::order::outranks;
use crate::solver::search::{
    built, extend, grown, is_best, is_best_so_far, is_fresh, is_reached, is_settled, kept,
    lemma_best_end, lemma_best_is_maximum, lemma_best_kept, lemma_best_pruned,
    lemma_best_replaced, lemma_best_start, lemma_kept_from, lemma_kept_none,
    lemma_retract_restores, lemma_settled_complete, retract,
};
use vstd::prelude::*;
use vstd::slice::slice_subrange;

verus! {

/// `s` is a maximum clique of `adj`, and of the maximum cliques the one
/// that a search over the nodes by their degree meets first.
pub open spec fn is_first_maximum_clique(adj: Map<usize, Seq<usize>>, s: Set<usize>) -> bool {
    is_best(adj, Set::<usize>::empty(), degree_order(adj), false, s)
}

/// No node of `nodes` has more neighbours than a node before it.
pub open spec fn is_by_degree(adj: Map<usize, Seq<usize>>, nodes: Seq<usize>) -> bool {
    forall|i: int, j: int|
        0 <= i < j < nodes.len() ==> adj[#[trigger] nodes[i]].len() >= adj[#[trigger] nodes[
            j
        ]].len()
}

/// The search from `base` over `nodes` takes at least its first step: it
/// starts from a node, or the first of `nodes` has a neighbour.
pub open spec fn is_open(adj: Map<usize, Seq<usize>>, base: Set<usize>, nodes: Seq<usize>) -> bool {
    base.len() > 0 || (nodes.len() > 0 && adj[nodes[0]].len() > 0)
}

/// Solves the maximum clique problem by branch and bound over the nodes by
/// their degree. Returns the subgraph that a maximum clique induces; of
/// several maximum cliques, the one that is met first. Where the graph has
/// no edge the search ends before its first step, and the graph without
/// nodes is returned.
pub fn solve(graph: &Graph) -> (clique: Graph)
    requires
        is_simple(graph@),
    ensures
        has_no_edge(graph@) ==> clique@.dom().is_empty(),
        !has_no_edge(graph@) ==> is_first_maximum_clique(graph@, clique@.dom())
            && is_maximum_clique(graph@, clique@.dom()),
        clique@ == built(graph@, degree_order(graph@), clique@.dom()),
        is_settled(&clique),
        clique@.dom().len() > 0 ==> clique.degree() + 1 == clique@.dom().len(),
        is_induced(clique@, graph@),
        is_complete(clique@),
{
    let nodes = graph.nodes_ord_by_degree();
    let empty = Graph::default();
    proof {
        assert(empty@.dom() =~= Set::<usize>::empty());
        assert(is_clique(graph@, empty@.dom()));
        assert forall|k: int| 0 <= k < nodes@.len() implies graph@.contains_key(
            #[trigger] nodes@[k],
        ) by {
            assert(nodes@.contains(nodes@[k]));
            assert(graph@.dom().contains(nodes@[k]));
        }
        assert forall|i: int, j: int| 0 <= i < j < nodes@.len() implies graph@[nodes@[i]].len()
            >= graph@[nodes@[j]].len() by {
            assert(outranks(degree_rank(graph@), nodes@[i], nodes@[j]));
        }
    }
    let clique = branch_and_bound(graph, nodes.as_slice(), empty);
    proof {
        lemma_induced_complete(clique@, graph@);
        assert(empty@ =~= Map::<usize, Seq<usize>>::empty());
        if clique@.dom().len() > 0 {
            lemma_settled_complete(&clique);
        }
        if is_open(graph@, empty@.dom(), nodes@) {
            assert(graph@.contains_key(nodes@[0]));
            assert(!has_no_edge(graph@));
            assert forall|x: usize| graph@.contains_key(x) implies nodes@.contains(x) by {
                assert(nodes@.to_set().contains(x));
            }
            lemma_best_is_maximum(graph@, nodes@, false, clique@.dom());
            assert(clique@.dom().len() > 0) by {
                let one = Set::<usize>::empty().insert(nodes@[0]);
                assert(is_clique(graph@, one));
                assert(one.len() == 1);
            }
            lemma_settled_complete(&clique);
        } else {
            assert forall|a: usize| graph@.contains_key(a) implies (#[trigger] graph@[a]).len()
                == 0 by {
                assert(nodes@.to_set().contains(a));
                let k = choose|k: int| 0 <= k < nodes@.len() && nodes@[k] == a;
                if k > 0 {
                    assert(graph@[nodes@[0]].len() >= graph@[nodes@[k]].len());
                }
            }
            assert(clique@.dom() =~= Set::<usize>::empty());
        }
    }
    clique
}

/// Tries the sets that hold the nodes of `clique` and, beyond them, only
/// nodes of `nodes`, in the order of `nodes`, and stops at the first node
/// that has no more neighbours than the degree of the best so far. Returns
/// the subgraph that the largest clique among all those sets induces, the
/// first of those of its size; or `clique` itself where its nodes are no
/// clique, or where it has no node and the search stops at the first node.
pub fn branch_and_bound(graph: &Graph, nodes: &[usize], clique: Graph) -> (best: Graph)
    requires
        is_simple(graph@),
        is_induced(clique@, graph@),
        is_fresh(clique@.dom(), nodes@),
        forall|k: int| 0 <= k < nodes@.len() ==> graph@.contains_key(#[trigger] nodes@[k]),
        is_by_degree(graph@, nodes@),
        is_settled(&clique),
    ensures
        is_induced(best@, graph@),
        is_settled(&best),
        is_reached(clique@.dom(), nodes@, best@.dom()),
        best@ == grown(graph@, clique@, kept(nodes@, best@.dom())),
        is_clique(graph@, clique@.dom()) && is_open(graph@, clique@.dom(), nodes@) ==> is_best(
            graph@,
            clique@.dom(),
            nodes@,
            false,
            best@.dom(),
        ),
        !(is_clique(graph@, clique@.dom()) && is_open(graph@, clique@.dom(), nodes@))
            ==> best@.dom() == clique@.dom(),
    decreases nodes@.len(),
{
    let ghost base = clique@.dom();
    let ghost start = clique@;
    let mut best = clique;
    let mut subgraph = best.clone();
    proof {
        lemma_kept_none(nodes@, base);
        if is_clique(graph@, base) {
            lemma_best_start(graph@, base, nodes@, false);
        }
    }
    let mut i: usize = 0;
    while i < nodes.len() && best.degree() < graph.degree_of(nodes[i])
        invariant
            i <= nodes.len(),
            is_simple(graph@),
            is_fresh(base, nodes@),
            forall|k: int| 0 <= k < nodes@.len() ==> graph@.contains_key(#[trigger] nodes@[k]),
            is_by_degree(graph@, nodes@),
            base.finite(),
            is_induced(subgraph@, graph@),
            subgraph@ == start,
            start.dom() == base,
            is_reached(base, nodes@, best@.dom()),
            best@ == grown(graph@, start, kept(nodes@, best@.dom())),
            subgraph@.dom() == base,
            lists_within(subgraph@, subgraph.degree() as nat),
            subgraph.degree() <= base.len(),
            is_induced(best@, graph@),
            is_settled(&best),
            is_clique(graph@, base) ==> is_best_so_far(
                graph@,
                base,
                nodes@,
                i as int,
                false,
                best@.dom(),
            ),
            is_clique(graph@, base) && i > 0 ==> best@.dom().len() > 0 && is_open(
                graph@,
                base,
                nodes@,
            ),
            i == 0 ==> best@.dom() == base,
            !is_clique(graph@, base) ==> best@.dom() == base,
        decreases nodes.len() - i,
    {
        let n = nodes[i];
        extend(graph, &mut subgraph, n);
        let rest = slice_subrange(nodes, i + 1, nodes.len());
        proof {
            assert forall|k: int| 0 <= k < rest@.len() implies !subgraph@.dom().contains(
                #[trigger] rest@[k],
            ) && graph@.contains_key(rest@[k]) by {
                assert(rest@[k] == nodes@[k + i + 1]);
            }
            assert(rest@.no_duplicates());
            assert forall|a: int, b: int| 0 <= a < b < rest@.len() implies graph@[rest@[a]].len()
                >= graph@[rest@[b]].len() by {
                assert(rest@[a] == nodes@[a + i + 1]);
                assert(rest@[b] == nodes@[b + i + 1]);
            }
            assert(subgraph@.dom().len() > 0);
        }
        let sol = branch_and_bound(graph, rest, subgraph.clone());
        proof {
            assert(is_reached(base, nodes@, sol@.dom())) by {
                assert forall|x: usize|
                    sol@.dom().contains(x) && !base.contains(x) implies nodes@.contains(x) by {
                    if x != n {
                        assert(rest@.contains(x));
                        let k = choose|k: int| 0 <= k < rest@.len() && rest@[k] == x;
                        assert(nodes@[k + i + 1] == x);
                    }
                }
            }
            assert(sol@ == grown(graph@, start, kept(nodes@, sol@.dom()))) by {
                assert forall|k: int| 0 <= k < i implies !sol@.dom().contains(
                    #[trigger] nodes@[k],
                ) by {
                    let x = nodes@[k];
                    if sol@.dom().contains(x) {
                        assert(x != n);
                        assert(rest@.contains(x));
                        let l = choose|l: int| 0 <= l < rest@.len() && rest@[l] == x;
                        assert(nodes@[l + i + 1] == nodes@[k]);
                    }
                }
                lemma_kept_from(nodes@, i as int, sol@.dom());
                let picks = seq![n] + kept(rest@, sol@.dom());
                assert(picks[0] == n);
                assert(picks.drop_first() =~= kept(rest@, sol@.dom()));
            }
            lemma_induced_complete(sol@, graph@);
            lemma_induced_complete(best@, graph@);
            assert(sol@.dom().len() > 0) by {
                assert(sol@.dom().contains(n));
                assert(sol@.dom().remove(n).len() + 1 == sol@.dom().len());
            }
            if is_clique(graph@, base.insert(n)) {
                lemma_clique_subset(graph@, base.insert(n), base);
                lemma_settled_complete(&sol);
            }
            if is_clique(graph@, base) && best@.dom().len() > 0 {
                lemma_settled_complete(&best);
            }
            if i == 0 {
                assert(graph@[nodes@[0]].len() > 0);
            }
        }
        if sol.is_complete() && (best.is_empty() || sol.degree() > best.degree()) {
            proof {
                assert(sol@.dom().len() > 0);
                lemma_best_replaced(
                    graph@,
                    base,
                    nodes@,
                    i as int,
                    false,
                    best@.dom(),
                    sol@.dom(),
                );
            }
            best = sol;
        } else {
            proof {
                if is_clique(graph@, base) {
                    if is_clique(graph@, base.insert(n)) {
                        assert(best@.dom().len() > 0);
                    }
                    lemma_best_kept(graph@, base, nodes@, i as int, false, best@.dom(), sol@.dom());
                    if base.len() == 0 && i == 0 {
                        let one = Set::<usize>::empty().insert(n);
                        assert(base.insert(n) =~= one);
                        assert(is_clique(graph@, one));
                    }
                }
            }
        }
        retract(graph, &mut subgraph, n);
        proof {
            lemma_retract_restores(graph@, start, n);
            assert(subgraph@.dom() =~= base);
        }
        i += 1;
    }
    proof {
        if is_clique(graph@, base) && is_open(graph@, base, nodes@) {
            if i < nodes.len() {
                assert(i > 0 || base.len() > 0);
                lemma_induced_complete(best@, graph@);
                assert(best@.dom().len() > 0) by {
                    if i == 0 {
                        assert(best@.dom() == base);
                    }
                }
                lemma_settled_complete(&best);
                assert forall|k: int| i <= k < nodes@.len() implies graph@[#[trigger] nodes@[k]].len()
                    + 1 <= best@.dom().len() by {
                    if k > i {
                        assert(graph@[nodes@[i as int]].len() >= graph@[nodes@[k]].len());
                    }
                }
                lemma_best_pruned(graph@, base, nodes@, i as int, best@.dom());
            } else {
                lemma_best_end(graph@, base, nodes@, false, best@.dom());
            }
        } else if is_clique(graph@, base) {
            assert(i == 0);
        }
    }
    best
}

} // verus!
