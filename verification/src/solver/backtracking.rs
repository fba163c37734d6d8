//! The search that tries every set of nodes.

use crate::adjacency::{
    is_clique, is_complete, is_induced, is_maximum_clique, is_simple, lemma_clique_subset,
    lemma_induced_complete, lists_within, node_order,
};
use crate::graph::Graph;
use crate::solver::search::{
    built, extend, grown, is_best, is_best_so_far, is_fresh, is_reached, is_settled, kept,
    lemma_best_end, lemma_best_is_maximum, lemma_best_kept, lemma_best_replaced,
    lemma_best_start, lemma_kept_from, lemma_kept_none, lemma_retract_restores,
    lemma_settled_complete, retract,
};
use vstd::prelude::*;
use vstd::slice::slice_subrange;

verus! {

/// `s` is a maximum clique of `adj`, and of the maximum cliques the one
/// that a search over the nodes from the largest identifier down meets
/// last.
pub open spec fn is_latest_maximum_clique(adj: Map<usize, Seq<usize>>, s: Set<usize>) -> bool {
    is_best(adj, Set::<usize>::empty(), node_order(adj), true, s)
}

/// Solves the maximum clique problem by trying every set of nodes, from the
/// largest identifier down. Returns the subgraph that a maximum clique
/// induces; of several maximum cliques, the one that is met last.
pub fn solve(graph: &Graph) -> (clique: Graph)
    requires
        is_simple(graph@),
    ensures
        is_latest_maximum_clique(graph@, clique@.dom()),
        clique@ == built(graph@, node_order(graph@), clique@.dom()),
        is_settled(&clique),
        clique@.dom().len() > 0 ==> clique.degree() + 1 == clique@.dom().len(),
        is_maximum_clique(graph@, clique@.dom()),
        is_induced(clique@, graph@),
        is_complete(clique@),
{
    let nodes = graph.nodes();
    let empty = Graph::new_empty();
    proof {
        assert(empty@.dom() =~= Set::<usize>::empty());
        assert(is_clique(graph@, empty@.dom()));
        assert forall|k: int| 0 <= k < nodes@.len() implies graph@.contains_key(
            #[trigger] nodes@[k],
        ) by {
            assert(nodes@.contains(nodes@[k]));
            assert(graph@.dom().contains(nodes@[k]));
        }
    }
    let clique = backtracking(graph, nodes.as_slice(), empty);
    proof {
        assert forall|x: usize| graph@.contains_key(x) implies nodes@.contains(x) by {
            assert(nodes@.to_set().contains(x));
        }
        lemma_best_is_maximum(graph@, nodes@, true, clique@.dom());
        lemma_induced_complete(clique@, graph@);
        if clique@.dom().len() > 0 {
            lemma_settled_complete(&clique);
        }
    }
    clique
}

/// Tries every set that holds the nodes of `clique` and, beyond them, only
/// nodes of `nodes`, in the order of `nodes`. Returns the subgraph that the
/// largest clique among them induces, the last of those of its size, or
/// `clique` itself where its nodes are no clique.
pub fn backtracking(graph: &Graph, nodes: &[usize], clique: Graph) -> (best: Graph)
    requires
        is_simple(graph@),
        is_induced(clique@, graph@),
        is_fresh(clique@.dom(), nodes@),
        forall|k: int| 0 <= k < nodes@.len() ==> graph@.contains_key(#[trigger] nodes@[k]),
        is_settled(&clique),
    ensures
        is_induced(best@, graph@),
        is_settled(&best),
        is_reached(clique@.dom(), nodes@, best@.dom()),
        best@ == grown(graph@, clique@, kept(nodes@, best@.dom())),
        is_clique(graph@, clique@.dom()) ==> is_best(
            graph@,
            clique@.dom(),
            nodes@,
            true,
            best@.dom(),
        ),
        !is_clique(graph@, clique@.dom()) ==> best@.dom() == clique@.dom(),
    decreases nodes@.len(),
{
    let ghost base = clique@.dom();
    let ghost start = clique@;
    let mut best = clique;
    let mut subgraph = best.clone();
    proof {
        lemma_kept_none(nodes@, base);
        if is_clique(graph@, base) {
            lemma_best_start(graph@, base, nodes@, true);
        }
    }
    let mut i: usize = 0;
    while i < nodes.len()
        invariant
            i <= nodes.len(),
            is_simple(graph@),
            is_fresh(base, nodes@),
            forall|k: int| 0 <= k < nodes@.len() ==> graph@.contains_key(#[trigger] nodes@[k]),
            base.finite(),
            is_induced(subgraph@, graph@),
            subgraph@ == start,
            start.dom() == base,
            is_reached(base, nodes@, best@.dom()),
            best@ == grown(graph@, start, kept(nodes@, best@.dom())),
            subgraph@.dom() == base,
            lists_within(subgraph@, subgraph.degree() as nat),
            subgraph.degree() <= base.len(),
            is_induced(best@, graph@),
            is_settled(&best),
            is_clique(graph@, base) ==> is_best_so_far(
                graph@,
                base,
                nodes@,
                i as int,
                true,
                best@.dom(),
            ),
            !is_clique(graph@, base) ==> best@.dom() == base,
        decreases nodes.len() - i,
    {
        let n = nodes[i];
        extend(graph, &mut subgraph, n);
        let rest = slice_subrange(nodes, i + 1, nodes.len());
        proof {
            assert forall|k: int| 0 <= k < rest@.len() implies !subgraph@.dom().contains(
                #[trigger] rest@[k],
            ) && graph@.contains_key(rest@[k]) by {
                assert(rest@[k] == nodes@[k + i + 1]);
            }
            assert(rest@.no_duplicates());
        }
        let sol = backtracking(graph, rest, subgraph.clone());
        proof {
            assert(is_reached(base, nodes@, sol@.dom())) by {
                assert forall|x: usize|
                    sol@.dom().contains(x) && !base.contains(x) implies nodes@.contains(x) by {
                    if x != n {
                        assert(rest@.contains(x));
                        let k = choose|k: int| 0 <= k < rest@.len() && rest@[k] == x;
                        assert(nodes@[k + i + 1] == x);
                    }
                }
            }
            assert(sol@ == grown(graph@, start, kept(nodes@, sol@.dom()))) by {
                assert forall|k: int| 0 <= k < i implies !sol@.dom().contains(
                    #[trigger] nodes@[k],
                ) by {
                    let x = nodes@[k];
                    if sol@.dom().contains(x) {
                        assert(x != n);
                        assert(rest@.contains(x));
                        let l = choose|l: int| 0 <= l < rest@.len() && rest@[l] == x;
                        assert(nodes@[l + i + 1] == nodes@[k]);
                    }
                }
                lemma_kept_from(nodes@, i as int, sol@.dom());
                let picks = seq![n] + kept(rest@, sol@.dom());
                assert(picks[0] == n);
                assert(picks.drop_first() =~= kept(rest@, sol@.dom()));
            }
            lemma_induced_complete(sol@, graph@);
            if is_clique(graph@, base.insert(n)) {
                lemma_clique_subset(graph@, base.insert(n), base);
            }
        }
        if sol.is_complete() && (best.is_empty() || sol.nlen() >= best.nlen()) {
            proof {
                lemma_best_replaced(graph@, base, nodes@, i as int, true, best@.dom(), sol@.dom());
            }
            best = sol;
        } else {
            proof {
                if is_clique(graph@, base) {
                    lemma_best_kept(graph@, base, nodes@, i as int, true, best@.dom(), sol@.dom());
                }
            }
        }
        retract(graph, &mut subgraph, n);
        proof {
            lemma_retract_restores(graph@, start, n);
            assert(subgraph@.dom() =~= base);
        }
        i += 1;
    }
    proof {
        if is_clique(graph@, base) {
            lemma_best_end(graph@, base, nodes@, true, best@.dom());
        }
    }
    best
}

} // verus!
