//! Graphs as mathematical values: a map from each node to the sequence of its
//! neighbours, and what it means for such a map to be a simple graph, to be
//! complete, and to hold a clique.

use crate::list::lemma_remove_value;
use crate::order::{descending, lemma_descending_exists, lemma_descending_is, ranking};
use vstd::prelude::*;
use vstd::set_lib::{lemma_len_subset, lemma_subset_equality};

verus! {

/// `a` and `b` are nodes, and each is listed as a neighbour of the other.
pub open spec fn has_edge(adj: Map<usize, Seq<usize>>, a: usize, b: usize) -> bool {
    &&& adj.contains_key(a)
    &&& adj.contains_key(b)
    &&& adj[a].contains(b)
    &&& adj[b].contains(a)
}

/// The map describes an undirected simple graph: finitely many nodes, every
/// neighbour a node, adjacency symmetric, no loop and no edge listed twice.
pub open spec fn is_simple(adj: Map<usize, Seq<usize>>) -> bool {
    &&& adj.dom().finite()
    &&& forall|a: usize| #[trigger]
        adj.contains_key(a) ==> adj[a].no_duplicates() && !adj[a].contains(a)
    &&& forall|a: usize, b: usize|
        adj.contains_key(a) && #[trigger] adj[a].contains(b) ==> adj.contains_key(b)
            && adj[b].contains(a)
}

/// The list of the node `a` holds only other nodes, each once, that list
/// `a` in turn.
pub open spec fn is_simple_at(adj: Map<usize, Seq<usize>>, a: usize) -> bool {
    &&& adj[a].no_duplicates()
    &&& !adj[a].contains(a)
    &&& forall|b: usize| #[trigger]
        adj[a].contains(b) ==> adj.contains_key(b) && adj[b].contains(a)
}

/// No adjacency list is longer than `bound`.
pub open spec fn lists_within(adj: Map<usize, Seq<usize>>, bound: nat) -> bool {
    forall|a: usize| #[trigger] adj.contains_key(a) ==> adj[a].len() <= bound
}

/// Every node has as many neighbours as there are other nodes.
pub open spec fn is_complete(adj: Map<usize, Seq<usize>>) -> bool {
    forall|a: usize| #[trigger] adj.contains_key(a) ==> adj[a].len() + 1 == adj.dom().len()
}

/// Any two distinct nodes are joined by an edge.
pub open spec fn all_adjacent(adj: Map<usize, Seq<usize>>) -> bool {
    forall|a: usize, b: usize|
        adj.contains_key(a) && adj.contains_key(b) && a != b ==> #[trigger] has_edge(adj, a, b)
}

/// `s` is a finite set of nodes any two of which are adjacent.
pub open spec fn is_clique(adj: Map<usize, Seq<usize>>, s: Set<usize>) -> bool {
    &&& s.finite()
    &&& forall|a: usize| s.contains(a) ==> #[trigger] adj.contains_key(a)
    &&& forall|a: usize, b: usize|
        s.contains(a) && s.contains(b) && a != b ==> #[trigger] adj[a].contains(b)
}

/// `s` is a clique, and no clique has more nodes.
pub open spec fn is_maximum_clique(adj: Map<usize, Seq<usize>>, s: Set<usize>) -> bool {
    &&& is_clique(adj, s)
    &&& forall|t: Set<usize>| #[trigger] is_clique(adj, t) ==> t.len() <= s.len()
}

/// `sub` is a simple graph on some of the nodes of `adj`, and two of its
/// nodes are adjacent in it just when they are adjacent in `adj`.
pub open spec fn is_induced(sub: Map<usize, Seq<usize>>, adj: Map<usize, Seq<usize>>) -> bool {
    &&& is_simple(sub)
    &&& forall|a: usize| sub.contains_key(a) ==> #[trigger] adj.contains_key(a)
    &&& forall|a: usize, b: usize|
        #![trigger sub[a].contains(b)]
        #![trigger adj[a].contains(b)]
        sub.contains_key(a) && sub.contains_key(b) ==> (sub[a].contains(b) <==> adj[a].contains(
            b,
        ))
}

/// The graph with the nodes `1..=count` and no edge.
pub open spec fn isolated(count: usize) -> Map<usize, Seq<usize>> {
    Map::new(|n: usize| 1 <= n <= count, |n: usize| Seq::<usize>::empty())
}

/// The graph after `b` was appended to the list of `a`, and then `a` to the
/// list of `b`.
pub open spec fn with_edge(adj: Map<usize, Seq<usize>>, a: usize, b: usize) -> Map<
    usize,
    Seq<usize>,
> {
    let first = adj.insert(a, adj[a].push(b));
    first.insert(b, first[b].push(a))
}

/// The graph after the first `b` was taken out of the list of `a`, and then
/// the first `a` out of the list of `b`.
pub open spec fn without_edge(adj: Map<usize, Seq<usize>>, a: usize, b: usize) -> Map<
    usize,
    Seq<usize>,
> {
    let first = adj.insert(a, adj[a].remove_value(b));
    first.insert(b, first[b].remove_value(a))
}

/// The graph after the node `n` was deleted and the first `n` was taken out
/// of every other adjacency list.
pub open spec fn without_node(adj: Map<usize, Seq<usize>>, n: usize) -> Map<usize, Seq<usize>> {
    Map::new(
        |k: usize| adj.contains_key(k) && k != n,
        |k: usize| adj[k].remove_value(n),
    )
}

/// The lengths of the adjacency lists of the nodes in `order`, added up.
pub open spec fn total_degree(adj: Map<usize, Seq<usize>>, order: Seq<usize>) -> nat
    decreases order.len(),
{
    if order.len() == 0 {
        0
    } else {
        total_degree(adj, order.drop_last()) + adj[order.last()].len()
    }
}

/// The nodes of the graph, from the largest identifier down.
pub open spec fn node_order(adj: Map<usize, Seq<usize>>) -> Seq<usize> {
    descending(adj.dom())
}

/// The pairs `(a, b)` for the neighbours `b` of `a` that are larger than
/// `a`, in the order of the list `l` of `a`.
pub open spec fn edges_from(a: usize, l: Seq<usize>) -> Seq<(usize, usize)>
    decreases l.len(),
{
    if l.len() == 0 {
        Seq::empty()
    } else if a < l.last() {
        edges_from(a, l.drop_last()).push((a, l.last()))
    } else {
        edges_from(a, l.drop_last())
    }
}

/// The edges at the nodes of `order`, each as the pair of its smaller and
/// its larger end, node after node.
pub open spec fn edges_over(adj: Map<usize, Seq<usize>>, order: Seq<usize>) -> Seq<(usize, usize)>
    decreases order.len(),
{
    if order.len() == 0 {
        Seq::empty()
    } else {
        edges_over(adj, order.drop_last()) + edges_from(order.last(), adj[order.last()])
    }
}

/// The edges of the graph, each as the pair of its smaller and its larger
/// end: those at the node with the largest identifier first.
pub open spec fn edge_list(adj: Map<usize, Seq<usize>>) -> Seq<(usize, usize)> {
    edges_over(adj, node_order(adj))
}

/// The rank of a node by the number of its neighbours.
pub open spec fn degree_rank(adj: Map<usize, Seq<usize>>) -> spec_fn(usize) -> nat {
    |x: usize| adj[x].len()
}

/// The nodes of the graph by the number of their neighbours, most first;
/// those with equally many from the largest identifier down.
pub open spec fn degree_order(adj: Map<usize, Seq<usize>>) -> Seq<usize> {
    ranking(degree_rank(adj), adj.dom())
}

/// No node has a neighbour.
pub open spec fn has_no_edge(adj: Map<usize, Seq<usize>>) -> bool {
    forall|a: usize| adj.contains_key(a) ==> (#[trigger] adj[a]).len() == 0
}

/// The number of edges: every edge is listed at both of its ends.
pub open spec fn edge_count(adj: Map<usize, Seq<usize>>) -> nat {
    total_degree(adj, node_order(adj)) / 2
}

/// Where no node has a neighbour, the sum of the list lengths is zero,
/// over whatever nodes it is taken.
pub proof fn lemma_total_degree_zero(adj: Map<usize, Seq<usize>>, order: Seq<usize>)
    requires
        forall|i: int| 0 <= i < order.len() ==> adj[#[trigger] order[i]].len() == 0,
    ensures
        total_degree(adj, order) == 0,
    decreases order.len(),
{
    if order.len() > 0 {
        let rest = order.drop_last();
        assert forall|i: int| 0 <= i < rest.len() implies adj[#[trigger] rest[i]].len() == 0 by {
            assert(rest[i] == order[i]);
        }
        lemma_total_degree_zero(adj, rest);
        assert(order.last() == order[order.len() - 1]);
    }
}

/// A graph whose nodes have no neighbours has no edge.
pub proof fn lemma_no_edges(adj: Map<usize, Seq<usize>>)
    requires
        adj.dom().finite(),
        has_no_edge(adj),
    ensures
        edge_count(adj) == 0,
{
    lemma_descending_exists(adj.dom());
    let order = node_order(adj);
    assert forall|i: int| 0 <= i < order.len() implies adj[#[trigger] order[i]].len() == 0 by {
        assert(order.contains(order[i]));
        assert(adj.dom().contains(order[i]));
    }
    lemma_total_degree_zero(adj, order);
}

/// The graph of `count` disconnected nodes has `count` nodes and no edge.
pub proof fn lemma_isolated(count: usize)
    ensures
        isolated(count).dom().finite(),
        isolated(count).dom().len() == count,
        edge_count(isolated(count)) == 0,
    decreases count,
{
    if count == 0 {
        assert(isolated(count).dom() =~= Set::<usize>::empty());
    } else {
        let less = (count - 1) as usize;
        lemma_isolated(less);
        assert(isolated(count).dom() =~= isolated(less).dom().insert(count));
    }
    lemma_no_edges(isolated(count));
}

/// In a simple graph the neighbours of a node are distinct other nodes, so
/// there are fewer of them than nodes; and as many as other nodes just when
/// every other node is among them.
pub proof fn lemma_neighbours(adj: Map<usize, Seq<usize>>, a: usize)
    requires
        is_simple(adj),
        adj.contains_key(a),
    ensures
        adj[a].to_set().subset_of(adj.dom().remove(a)),
        adj[a].to_set().len() == adj[a].len(),
        adj[a].len() + 1 <= adj.dom().len(),
        adj[a].len() + 1 == adj.dom().len() <==> adj[a].to_set() == adj.dom().remove(a),
{
    let l = adj[a];
    let others = adj.dom().remove(a);
    l.unique_seq_to_set();
    assert forall|x: usize| l.to_set().contains(x) implies others.contains(x) by {
        assert(l.contains(x));
    }
    lemma_len_subset(l.to_set(), others);
    if l.len() + 1 == adj.dom().len() {
        lemma_subset_equality(l.to_set(), others);
    }
}

/// A simple graph is complete just when any two of its nodes are adjacent.
pub proof fn lemma_complete_iff_all_adjacent(adj: Map<usize, Seq<usize>>)
    requires
        is_simple(adj),
    ensures
        is_complete(adj) <==> all_adjacent(adj),
{
    if is_complete(adj) {
        assert forall|a: usize, b: usize|
            adj.contains_key(a) && adj.contains_key(b) && a != b implies #[trigger] has_edge(
            adj,
            a,
            b,
        ) by {
            lemma_neighbours(adj, a);
            assert(adj.dom().remove(a).contains(b));
            assert(adj[a].to_set().contains(b));
            assert(adj[a].contains(b));
        }
    }
    if all_adjacent(adj) {
        assert forall|a: usize| #[trigger] adj.contains_key(a) implies adj[a].len() + 1
            == adj.dom().len() by {
            lemma_neighbours(adj, a);
            assert forall|x: usize| adj.dom().remove(a).contains(x) implies adj[a].to_set().contains(
                x,
            ) by {
                assert(has_edge(adj, a, x));
            }
            assert(adj[a].to_set() =~= adj.dom().remove(a));
        }
    }
}

/// A clique of a simple graph that holds `n` has at most one node more than
/// `n` has neighbours.
pub proof fn lemma_clique_within_degree(adj: Map<usize, Seq<usize>>, s: Set<usize>, n: usize)
    requires
        is_simple(adj),
        is_clique(adj, s),
        s.contains(n),
    ensures
        s.len() <= adj[n].len() + 1,
{
    lemma_neighbours(adj, n);
    assert forall|x: usize| s.remove(n).contains(x) implies adj[n].to_set().contains(x) by {
        assert(adj[n].contains(x));
    }
    lemma_len_subset(s.remove(n), adj[n].to_set());
}

/// The subgraph that a set of nodes induces is complete just when the set
/// is a clique.
pub proof fn lemma_induced_complete(sub: Map<usize, Seq<usize>>, adj: Map<usize, Seq<usize>>)
    requires
        is_induced(sub, adj),
    ensures
        is_complete(sub) <==> is_clique(adj, sub.dom()),
{
    lemma_complete_iff_all_adjacent(sub);
    if all_adjacent(sub) {
        assert forall|a: usize, b: usize|
            sub.dom().contains(a) && sub.dom().contains(b) && a != b implies #[trigger] adj[a].contains(
            b,
        ) by {
            assert(has_edge(sub, a, b));
        }
    }
    if is_clique(adj, sub.dom()) {
        assert forall|a: usize, b: usize|
            sub.contains_key(a) && sub.contains_key(b) && a != b implies #[trigger] has_edge(
            sub,
            a,
            b,
        ) by {
            assert(adj[a].contains(b));
            assert(adj[b].contains(a));
        }
    }
}

/// What an edge between two distinct nodes adds: each end to the list of
/// the other, and nothing else. A simple graph in which the two were not
/// adjacent stays simple.
pub proof fn lemma_with_edge(adj: Map<usize, Seq<usize>>, a: usize, b: usize)
    requires
        adj.contains_key(a),
        adj.contains_key(b),
        a != b,
    ensures
        with_edge(adj, a, b).dom() == adj.dom(),
        with_edge(adj, a, b)[a] == adj[a].push(b),
        with_edge(adj, a, b)[b] == adj[b].push(a),
        forall|x: usize| x != a && x != b ==> with_edge(adj, a, b)[x] == adj[x],
        forall|x: usize, y: usize|
            adj.contains_key(x) ==> (#[trigger] with_edge(adj, a, b)[x].contains(y) <==> adj[x].contains(
                y,
            ) || (x == a && y == b) || (x == b && y == a)),
        is_simple(adj) && !adj[a].contains(b) ==> is_simple(with_edge(adj, a, b)),
{
    let g = with_edge(adj, a, b);
    assert(g.dom() =~= adj.dom());
    assert forall|x: usize, y: usize| adj.contains_key(x) implies (#[trigger] g[x].contains(y)
        <==> adj[x].contains(y) || (x == a && y == b) || (x == b && y == a)) by {
        lemma_push_contains(adj[x], b, y);
        lemma_push_contains(adj[x], a, y);
    }
    if is_simple(adj) && !adj[a].contains(b) {
        assert(!adj[b].contains(a));
        assert forall|x: usize| #[trigger] g.contains_key(x) implies g[x].no_duplicates()
            && !g[x].contains(x) by {
            assert(adj.contains_key(x));
            lemma_push_no_duplicates(adj[a], b);
            lemma_push_no_duplicates(adj[b], a);
        }
    }
}

/// `s.push(x)` holds `x` and what `s` holds.
pub proof fn lemma_push_contains(s: Seq<usize>, x: usize, y: usize)
    ensures
        s.push(x).contains(y) <==> s.contains(y) || y == x,
{
    let p = s.push(x);
    if p.contains(y) {
        let i = choose|i: int| 0 <= i < p.len() && p[i] == y;
        if i < s.len() {
            assert(s[i] == y);
        }
    }
    if s.contains(y) {
        let i = choose|i: int| 0 <= i < s.len() && s[i] == y;
        assert(p[i] == y);
    }
    if y == x {
        assert(p[s.len() as int] == y);
    }
}

/// A list without duplicates stays so when an element that it lacks is
/// appended.
pub proof fn lemma_push_no_duplicates(s: Seq<usize>, x: usize)
    requires
        s.no_duplicates(),
        !s.contains(x),
    ensures
        s.push(x).no_duplicates(),
{
    let p = s.push(x);
    assert forall|i: int, j: int| 0 <= i < p.len() && 0 <= j < p.len() && i != j implies p[i]
        != p[j] by {
        if i < s.len() {
            assert(s.contains(s[i]));
        }
        if j < s.len() {
            assert(s.contains(s[j]));
        }
    }
}

/// A simple graph stays simple when a node is removed, and the nodes
/// that are left are adjacent as before.
pub proof fn lemma_without_node(adj: Map<usize, Seq<usize>>, n: usize)
    requires
        is_simple(adj),
        adj.contains_key(n),
    ensures
        is_simple(without_node(adj, n)),
        without_node(adj, n).dom() == adj.dom().remove(n),
        forall|x: usize, y: usize|
            adj.contains_key(x) && x != n ==> (#[trigger] without_node(adj, n)[x].contains(y)
                <==> adj[x].contains(y) && y != n),
        forall|x: usize|
            adj.contains_key(x) && x != n ==> (#[trigger] without_node(adj, n)[x]).len() <= adj[x].len(),
{
    let g = without_node(adj, n);
    assert(g.dom() =~= adj.dom().remove(n));
    assert forall|x: usize| adj.contains_key(x) && x != n implies g[x].no_duplicates() && (
    #[trigger] g[x]).len() <= adj[x].len() && (forall|y: usize| #[trigger]
        g[x].contains(y) <==> adj[x].contains(y) && y != n) by {
        lemma_remove_value(adj[x], n);
    }
}

/// What the removal of an edge of a simple graph takes away: each end from
/// the list of the other, and nothing else. The graph stays simple.
pub proof fn lemma_without_edge(adj: Map<usize, Seq<usize>>, a: usize, b: usize)
    requires
        is_simple(adj),
        has_edge(adj, a, b),
    ensures
        is_simple(without_edge(adj, a, b)),
        without_edge(adj, a, b).dom() == adj.dom(),
        !has_edge(without_edge(adj, a, b), a, b),
        forall|x: usize, y: usize|
            adj.contains_key(x) ==> (#[trigger] without_edge(adj, a, b)[x].contains(y)
                <==> adj[x].contains(y) && !(x == a && y == b) && !(x == b && y == a)),
        without_edge(adj, a, b)[a].len() + 1 == adj[a].len(),
        without_edge(adj, a, b)[b].len() + 1 == adj[b].len(),
{
    let g = without_edge(adj, a, b);
    assert(a != b);
    assert(g.dom() =~= adj.dom());
    lemma_remove_value(adj[a], b);
    lemma_remove_value(adj[b], a);
    assert(g[a] == adj[a].remove_value(b));
    assert(g[b] == adj[b].remove_value(a));
    assert forall|x: usize, y: usize| adj.contains_key(x) implies (#[trigger] g[x].contains(y)
        <==> adj[x].contains(y) && !(x == a && y == b) && !(x == b && y == a)) by {
        if x != a && x != b {
            assert(g[x] == adj[x]);
        }
    }
    assert forall|x: usize| #[trigger] g.contains_key(x) implies g[x].no_duplicates()
        && !g[x].contains(x) by {
        assert(adj.contains_key(x));
        if x != a && x != b {
            assert(g[x] == adj[x]);
        }
    }
    assert forall|x: usize, y: usize| g.contains_key(x) && #[trigger] g[x].contains(
        y,
    ) implies g.contains_key(y) && g[y].contains(x) by {
        assert(adj.contains_key(x));
        assert(adj[x].contains(y));
        assert(adj.contains_key(y));
        assert(adj[y].contains(x));
    }
}

/// A simple graph stays simple when an isolated node is added.
pub proof fn lemma_with_node(adj: Map<usize, Seq<usize>>, n: usize)
    requires
        is_simple(adj),
        !adj.contains_key(n),
    ensures
        is_simple(adj.insert(n, Seq::<usize>::empty())),
{
    let g = adj.insert(n, Seq::<usize>::empty());
    assert(g.dom() =~= adj.dom().insert(n));
    assert forall|a: usize, b: usize|
        g.contains_key(a) && #[trigger] g[a].contains(b) implies g.contains_key(b)
        && g[b].contains(a) by {
        if a != n {
            assert(adj[a].contains(b));
            assert(b != n);
        }
    }
}

/// The sum of the list lengths over distinct nodes is at least `least` for
/// each node among them whose list is at least that long.
pub proof fn lemma_total_degree_at_least(
    adj: Map<usize, Seq<usize>>,
    order: Seq<usize>,
    t: Set<usize>,
    least: nat,
)
    requires
        order.no_duplicates(),
        t.finite(),
        forall|x: usize| t.contains(x) ==> order.contains(x) && adj[x].len() >= least,
    ensures
        total_degree(adj, order) >= least * t.len(),
    decreases order.len(),
{
    if order.len() == 0 {
        assert(t =~= Set::<usize>::empty()) by {
            assert forall|x: usize| !t.contains(x) by {
                if t.contains(x) {
                    assert(order.contains(x));
                }
            }
        }
        assert(least * 0 == 0) by (nonlinear_arith);
    } else {
        let last = order.last();
        let rest = order.drop_last();
        let u = t.remove(last);
        assert forall|x: usize| u.contains(x) implies rest.contains(x) && adj[x].len()
            >= least by {
            assert(order.contains(x));
            let k = choose|k: int| 0 <= k < order.len() && order[k] == x;
            assert(rest[k] == x);
        }
        assert(rest.no_duplicates()) by {
            assert forall|i: int, j: int|
                0 <= i < rest.len() && 0 <= j < rest.len() && i != j implies rest[i] != rest[j] by {
                assert(rest[i] == order[i] && rest[j] == order[j]);
            }
        }
        lemma_total_degree_at_least(adj, rest, u, least);
        if t.contains(last) {
            assert(least * t.len() == least * u.len() + least) by (nonlinear_arith)
                requires
                    t.len() == u.len() + 1,
            ;
        } else {
            assert(u =~= t);
        }
    }
}

/// A simple graph with a clique of three nodes has at least three edges.
pub proof fn lemma_triangle_edges(adj: Map<usize, Seq<usize>>, t: Set<usize>)
    requires
        is_simple(adj),
        is_clique(adj, t),
        t.len() >= 3,
    ensures
        edge_count(adj) >= 3,
{
    lemma_descending_exists(adj.dom());
    let order = node_order(adj);
    lemma_descending_is(order, adj.dom());
    let a = t.choose();
    let ta = t.remove(a);
    let b = ta.choose();
    let tb = ta.remove(b);
    let c = tb.choose();
    let three = set![a, b, c];
    assert(three.len() == 3) by {
        assert(three =~= Set::<usize>::empty().insert(a).insert(b).insert(c));
    }
    assert forall|x: usize| three.contains(x) implies order.contains(x) && adj[x].len() >= 2 by {
        assert(t.contains(x));
        assert(order.to_set().contains(x));
        lemma_clique_within_degree(adj, three, x);
    }
    lemma_total_degree_at_least(adj, order, three, 2);
}

/// In a simple graph with an edge and at most two edges, two adjacent
/// nodes are a maximum clique.
pub proof fn lemma_pair_is_maximum(adj: Map<usize, Seq<usize>>, a: usize, b: usize)
    requires
        is_simple(adj),
        adj.contains_key(a),
        adj[a].contains(b),
        edge_count(adj) <= 2,
    ensures
        is_maximum_clique(adj, set![a, b]),
        set![a, b].len() == 2,
{
    let pair = set![a, b];
    assert(pair =~= Set::<usize>::empty().insert(a).insert(b));
    assert(a != b);
    assert(adj[b].contains(a));
    assert(is_clique(adj, pair));
    assert forall|t: Set<usize>| #[trigger] is_clique(adj, t) implies t.len() <= pair.len() by {
        if t.len() >= 3 {
            lemma_triangle_edges(adj, t);
        }
    }
}

/// Part of a clique is a clique.
pub proof fn lemma_clique_subset(adj: Map<usize, Seq<usize>>, s: Set<usize>, t: Set<usize>)
    requires
        is_clique(adj, s),
        t.subset_of(s),
    ensures
        is_clique(adj, t),
{
    lemma_len_subset(t, s);
}

} // verus!
