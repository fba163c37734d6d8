//! What the clique searches share: the candidate that grows and shrinks by
//! one node, and the order in which the cliques of a graph are met.

use crate::adjacency::{
    is_clique, is_complete, is_induced, is_maximum_clique, is_simple, lemma_clique_subset,
    lemma_clique_within_degree, lemma_neighbours, lemma_with_edge, lemma_with_node,
    lemma_without_node, lists_within, without_node,
};
use crate::graph::Graph;
use crate::list::{holds, lemma_push_then_remove, lemma_remove_value};
use crate::order::descending;
use vstd::prelude::*;
use vstd::set_lib::{lemma_len_subset, lemma_subset_equality};

verus! {

/// `s` holds all of `base` and, beyond it, only nodes of `more`.
pub open spec fn is_reached(base: Set<usize>, more: Seq<usize>, s: Set<usize>) -> bool {
    &&& base.subset_of(s)
    &&& forall|x: usize| s.contains(x) && !base.contains(x) ==> more.contains(x)
}

/// `s` is a clique of `adj` that holds all of `base` and, beyond it, only
/// nodes of `more`.
pub open spec fn grows_from(
    adj: Map<usize, Seq<usize>>,
    base: Set<usize>,
    more: Seq<usize>,
    s: Set<usize>,
) -> bool {
    is_clique(adj, s) && is_reached(base, more, s)
}

/// `s` holds one of the first `i` nodes of `more`.
pub open spec fn reaches(more: Seq<usize>, i: int, s: Set<usize>) -> bool {
    exists|k: int| 0 <= k < i && k < more.len() && s.contains(#[trigger] more[k])
}

/// `order[p]` is the first node of `order` that only one of the two sets
/// holds, and it is `s` that holds it.
pub open spec fn splits_at(order: Seq<usize>, s: Set<usize>, t: Set<usize>, p: int) -> bool {
    &&& 0 <= p < order.len()
    &&& s.contains(order[p])
    &&& !t.contains(order[p])
    &&& forall|q: int| 0 <= q < p ==> (s.contains(#[trigger] order[q]) <==> t.contains(order[q]))
}

/// A search that takes the nodes in the order of `order`, and tries every
/// set with a node before it tries the sets without it, meets `s` before
/// `t`.
pub open spec fn met_before(order: Seq<usize>, s: Set<usize>, t: Set<usize>) -> bool {
    exists|p: int| splits_at(order, s, t, p)
}

/// Of two cliques of one size the search keeps `kept`: the one that it
/// meets later where `latest` holds, else the one that it meets first.
pub open spec fn is_preferred(
    order: Seq<usize>,
    latest: bool,
    kept: Set<usize>,
    other: Set<usize>,
) -> bool {
    if latest {
        met_before(order, other, kept)
    } else {
        met_before(order, kept, other)
    }
}

/// `s` is a clique that grows from `base`, and it is `base` or holds one of
/// the first `i` nodes of `more`.
pub open spec fn is_tried(
    adj: Map<usize, Seq<usize>>,
    base: Set<usize>,
    more: Seq<usize>,
    i: int,
    s: Set<usize>,
) -> bool {
    grows_from(adj, base, more, s) && (s == base || reaches(more, i, s))
}

/// Among the cliques tried up to the node `i` of `more`, `b` is a largest
/// one, and the one that the search keeps among those of its size.
pub open spec fn is_best_so_far(
    adj: Map<usize, Seq<usize>>,
    base: Set<usize>,
    more: Seq<usize>,
    i: int,
    latest: bool,
    b: Set<usize>,
) -> bool {
    &&& is_tried(adj, base, more, i, b)
    &&& forall|s: Set<usize>| #[trigger]
        is_tried(adj, base, more, i, s) ==> s.len() <= b.len() && (s.len() == b.len() && s != b
            ==> is_preferred(more, latest, b, s))
}

/// Among the cliques that grow from `base` by nodes of `more`, `b` is a
/// largest one, and the one that the search keeps among those of its size.
pub open spec fn is_best(
    adj: Map<usize, Seq<usize>>,
    base: Set<usize>,
    more: Seq<usize>,
    latest: bool,
    b: Set<usize>,
) -> bool {
    &&& grows_from(adj, base, more, b)
    &&& forall|s: Set<usize>| #[trigger]
        grows_from(adj, base, more, s) ==> s.len() <= b.len() && (s.len() == b.len() && s != b
            ==> is_preferred(more, latest, b, s))
}

/// Of two sets the search meets at most one before the other.
pub proof fn lemma_met_one_way(order: Seq<usize>, s: Set<usize>, t: Set<usize>)
    ensures
        !(met_before(order, s, t) && met_before(order, t, s)),
{
    if met_before(order, s, t) && met_before(order, t, s) {
        let p = choose|p: int| splits_at(order, s, t, p);
        let q = choose|q: int| splits_at(order, t, s, q);
        if p < q {
            assert(t.contains(order[p]) <==> s.contains(order[p]));
        } else if q < p {
            assert(s.contains(order[q]) <==> t.contains(order[q]));
        }
    }
}

/// There is one best clique at most.
pub proof fn lemma_best_unique(
    adj: Map<usize, Seq<usize>>,
    base: Set<usize>,
    more: Seq<usize>,
    latest: bool,
    b: Set<usize>,
    c: Set<usize>,
)
    requires
        is_best(adj, base, more, latest, b),
        is_best(adj, base, more, latest, c),
    ensures
        b == c,
{
    if b != c {
        assert(is_preferred(more, latest, b, c));
        assert(is_preferred(more, latest, c, b));
        lemma_met_one_way(more, b, c);
    }
}

/// The nodes of `more` are distinct and none of them is in `base`.
pub open spec fn is_fresh(base: Set<usize>, more: Seq<usize>) -> bool {
    &&& more.no_duplicates()
    &&& forall|k: int| 0 <= k < more.len() ==> !base.contains(#[trigger] more[k])
}

/// A clique that grows from `base` and is not `base` has more nodes, and
/// one of them is in `more`.
pub proof fn lemma_grown(
    adj: Map<usize, Seq<usize>>,
    base: Set<usize>,
    more: Seq<usize>,
    s: Set<usize>,
)
    requires
        grows_from(adj, base, more, s),
        s != base,
    ensures
        base.len() < s.len(),
        reaches(more, more.len() as int, s),
{
    lemma_len_subset(base, s);
    if base.len() == s.len() {
        lemma_subset_equality(base, s);
        assert(base =~= s);
    }
    assert(!(s =~= base));
    let x = choose|x: usize| s.contains(x) != base.contains(x);
    assert(s.contains(x) && !base.contains(x));
    assert(more.contains(x));
    let k = choose|k: int| 0 <= k < more.len() && more[k] == x;
    assert(s.contains(more[k]));
}

/// Of the nodes of `more` that `s` holds, one comes first.
pub proof fn lemma_first_reached(more: Seq<usize>, i: int, s: Set<usize>) -> (p: int)
    requires
        reaches(more, i, s),
    ensures
        0 <= p < i,
        p < more.len(),
        s.contains(more[p]),
        forall|q: int| 0 <= q < p ==> !s.contains(#[trigger] more[q]),
    decreases i,
{
    let k = choose|k: int| 0 <= k < i && k < more.len() && s.contains(#[trigger] more[k]);
    if reaches(more, k, s) {
        lemma_first_reached(more, k, s)
    } else {
        assert forall|q: int| 0 <= q < k implies !s.contains(#[trigger] more[q]) by {
            if s.contains(more[q]) {
                assert(reaches(more, k, s));
            }
        }
        k
    }
}

/// The search meets a clique that holds one of the first `i` nodes of
/// `more` before one that holds none of them.
pub proof fn lemma_reached_first(more: Seq<usize>, i: int, s: Set<usize>, t: Set<usize>)
    requires
        reaches(more, i, s),
        !reaches(more, i, t),
    ensures
        met_before(more, s, t),
{
    let p = lemma_first_reached(more, i, s);
    assert forall|q: int| 0 <= q < p implies (s.contains(#[trigger] more[q]) <==> t.contains(
        more[q],
    )) by {
        if t.contains(more[q]) {
            assert(reaches(more, i, t));
        }
    }
    if t.contains(more[p]) {
        assert(reaches(more, i, t));
    }
    assert(splits_at(more, s, t, p));
}

/// The cliques that are first tried with the node `i` of `more` are those
/// that grow from `base` and that node by the nodes behind it.
pub proof fn lemma_tried_next(
    adj: Map<usize, Seq<usize>>,
    base: Set<usize>,
    more: Seq<usize>,
    i: int,
    s: Set<usize>,
)
    requires
        is_fresh(base, more),
        0 <= i < more.len(),
    ensures
        is_tried(adj, base, more, i + 1, s) && !is_tried(adj, base, more, i, s) <==> grows_from(
            adj,
            base.insert(more[i]),
            more.subrange(i + 1, more.len() as int),
            s,
        ),
        grows_from(adj, base.insert(more[i]), more.subrange(i + 1, more.len() as int), s) ==> s
            != base && !reaches(more, i, s) && s.contains(more[i]),
{
    let n = more[i];
    let rest = more.subrange(i + 1, more.len() as int);
    if is_tried(adj, base, more, i + 1, s) && !is_tried(adj, base, more, i, s) {
        let k = choose|k: int| 0 <= k < i + 1 && k < more.len() && s.contains(#[trigger] more[k]);
        if k < i {
            assert(reaches(more, i, s));
        }
        assert(s.contains(n));
        assert forall|x: usize| s.contains(x) && !base.insert(n).contains(x) implies rest.contains(
            x,
        ) by {
            assert(more.contains(x));
            let j = choose|j: int| 0 <= j < more.len() && more[j] == x;
            if j < i {
                assert(s.contains(more[j]));
                assert(reaches(more, i, s));
            }
            assert(rest[j - i - 1] == x);
        }
    }
    if grows_from(adj, base.insert(n), rest, s) {
        assert(s.contains(n));
        assert(!base.contains(more[i]));
        assert(s != base);
        assert forall|x: usize| s.contains(x) && !base.contains(x) implies more.contains(x) by {
            if x != n {
                assert(rest.contains(x));
                let j = choose|j: int| 0 <= j < rest.len() && rest[j] == x;
                assert(more[j + i + 1] == x);
            }
        }
        if reaches(more, i, s) {
            let k = choose|k: int| 0 <= k < i && k < more.len() && s.contains(#[trigger] more[k]);
            let x = more[k];
            assert(!base.contains(x));
            assert(x != n);
            assert(rest.contains(x));
            let j = choose|j: int| 0 <= j < rest.len() && rest[j] == x;
            assert(more[j + i + 1] == more[k]);
        }
        assert(s.contains(more[i]));
        assert(reaches(more, i + 1, s));
    }
}

/// Two cliques that grow from `base` and the node `i` of `more` are met in
/// the search over `more` in the order in which the search over the nodes
/// behind that node meets them.
pub proof fn lemma_met_before_shift(
    more: Seq<usize>,
    i: int,
    s: Set<usize>,
    t: Set<usize>,
)
    requires
        0 <= i < more.len(),
        met_before(more.subrange(i + 1, more.len() as int), s, t),
        forall|q: int| 0 <= q <= i ==> (s.contains(#[trigger] more[q]) <==> t.contains(more[q])),
    ensures
        met_before(more, s, t),
{
    let rest = more.subrange(i + 1, more.len() as int);
    let p = choose|p: int| splits_at(rest, s, t, p);
    assert forall|q: int| 0 <= q < p + i + 1 implies (s.contains(#[trigger] more[q])
        <==> t.contains(more[q])) by {
        if q > i {
            assert(rest[q - i - 1] == more[q]);
        }
    }
    assert(rest[p] == more[p + i + 1]);
    assert(splits_at(more, s, t, p + i + 1));
}

/// At the start only `base` is tried.
pub proof fn lemma_best_start(
    adj: Map<usize, Seq<usize>>,
    base: Set<usize>,
    more: Seq<usize>,
    latest: bool,
)
    requires
        is_clique(adj, base),
    ensures
        is_best_so_far(adj, base, more, 0, latest, base),
{
}

/// When every node of `more` has been taken, every clique that grows from
/// `base` has been tried.
pub proof fn lemma_best_end(
    adj: Map<usize, Seq<usize>>,
    base: Set<usize>,
    more: Seq<usize>,
    latest: bool,
    b: Set<usize>,
)
    requires
        is_best_so_far(adj, base, more, more.len() as int, latest, b),
    ensures
        is_best(adj, base, more, latest, b),
{
    assert forall|s: Set<usize>| #[trigger] grows_from(adj, base, more, s) implies s.len()
        <= b.len() && (s.len() == b.len() && s != b ==> is_preferred(more, latest, b, s)) by {
        if s != base {
            lemma_grown(adj, base, more, s);
        }
        assert(is_tried(adj, base, more, more.len() as int, s));
    }
}

/// The best clique found with the node `i` of `more` takes the place of
/// the best so far where it is larger, or as large and the later is kept.
pub proof fn lemma_best_replaced(
    adj: Map<usize, Seq<usize>>,
    base: Set<usize>,
    more: Seq<usize>,
    i: int,
    latest: bool,
    b: Set<usize>,
    r: Set<usize>,
)
    requires
        is_fresh(base, more),
        0 <= i < more.len(),
        is_best_so_far(adj, base, more, i, latest, b),
        is_best(adj, base.insert(more[i]), more.subrange(i + 1, more.len() as int), latest, r),
        r.len() > b.len() || (latest && r.len() == b.len()),
    ensures
        is_best_so_far(adj, base, more, i + 1, latest, r),
{
    let n = more[i];
    let rest = more.subrange(i + 1, more.len() as int);
    lemma_tried_next(adj, base, more, i, r);
    assert forall|s: Set<usize>| #[trigger] is_tried(adj, base, more, i + 1, s) implies s.len()
        <= r.len() && (s.len() == r.len() && s != r ==> is_preferred(more, latest, r, s)) by {
        lemma_tried_next(adj, base, more, i, s);
        if is_tried(adj, base, more, i, s) {
            if s.len() == r.len() && s != r {
                assert(s.len() == b.len());
                assert(latest);
                if s == base {
                    lemma_grown(adj, base, more, r);
                }
                lemma_reached_first(more, i, s, r);
            }
        } else {
            assert(grows_from(adj, base.insert(n), rest, s));
            if s.len() == r.len() && s != r {
                assert(is_preferred(rest, latest, r, s));
                assert forall|q: int| 0 <= q <= i implies (s.contains(#[trigger] more[q])
                    <==> r.contains(more[q])) by {
                    if q < i {
                        if s.contains(more[q]) {
                            assert(reaches(more, i, s));
                        }
                        if r.contains(more[q]) {
                            assert(reaches(more, i, r));
                        }
                    }
                }
                if latest {
                    lemma_met_before_shift(more, i, s, r);
                } else {
                    lemma_met_before_shift(more, i, r, s);
                }
            }
        }
    }
}

/// The best clique so far stays where the node `i` of `more` gives no
/// clique, or none that is larger, or as large where the later is kept.
pub proof fn lemma_best_kept(
    adj: Map<usize, Seq<usize>>,
    base: Set<usize>,
    more: Seq<usize>,
    i: int,
    latest: bool,
    b: Set<usize>,
    r: Set<usize>,
)
    requires
        is_fresh(base, more),
        0 <= i < more.len(),
        is_best_so_far(adj, base, more, i, latest, b),
        is_clique(adj, base.insert(more[i])) ==> is_best(
            adj,
            base.insert(more[i]),
            more.subrange(i + 1, more.len() as int),
            latest,
            r,
        ) && (r.len() < b.len() || (!latest && r.len() == b.len())),
    ensures
        is_best_so_far(adj, base, more, i + 1, latest, b),
{
    let n = more[i];
    let rest = more.subrange(i + 1, more.len() as int);
    assert(is_tried(adj, base, more, i + 1, b)) by {
        if b != base {
            let k = choose|k: int| 0 <= k < i && k < more.len() && b.contains(#[trigger] more[k]);
            assert(reaches(more, i + 1, b));
        }
    }
    assert forall|s: Set<usize>| #[trigger] is_tried(adj, base, more, i + 1, s) implies s.len()
        <= b.len() && (s.len() == b.len() && s != b ==> is_preferred(more, latest, b, s)) by {
        lemma_tried_next(adj, base, more, i, s);
        if !is_tried(adj, base, more, i, s) {
            assert(grows_from(adj, base.insert(n), rest, s));
            assert(is_clique(adj, base.insert(n))) by {
                lemma_clique_subset(adj, s, base.insert(n));
            }
            assert(s.len() <= r.len());
            if s.len() == b.len() && s != b {
                assert(!latest);
                if b == base {
                    lemma_grown(adj, base, more, s);
                }
                lemma_reached_first(more, i, b, s);
            }
        }
    }
}

/// Where the best clique so far has a node more than any node from the
/// node `i` of `more` on has neighbours, nothing behind can take its place
/// in a search that keeps the first.
pub proof fn lemma_best_pruned(
    adj: Map<usize, Seq<usize>>,
    base: Set<usize>,
    more: Seq<usize>,
    i: int,
    b: Set<usize>,
)
    requires
        is_simple(adj),
        is_fresh(base, more),
        0 <= i <= more.len(),
        is_best_so_far(adj, base, more, i, false, b),
        forall|k: int| i <= k < more.len() ==> adj[#[trigger] more[k]].len() + 1 <= b.len(),
    ensures
        is_best(adj, base, more, false, b),
{
    assert forall|s: Set<usize>| #[trigger] grows_from(adj, base, more, s) implies s.len()
        <= b.len() && (s.len() == b.len() && s != b ==> is_preferred(more, false, b, s)) by {
        if !is_tried(adj, base, more, i, s) {
            lemma_grown(adj, base, more, s);
            let k = choose|k: int|
                0 <= k < more.len() && k < more.len() && s.contains(#[trigger] more[k]);
            if k < i {
                assert(reaches(more, i, s));
            }
            lemma_clique_within_degree(adj, s, more[k]);
            if s.len() == b.len() && s != b {
                if b == base {
                    assert(false);
                }
                lemma_reached_first(more, i, b, s);
            }
        }
    }
}

/// The best of the cliques that grow from no node, by the nodes of a
/// sequence that holds every node, is a maximum clique.
pub proof fn lemma_best_is_maximum(
    adj: Map<usize, Seq<usize>>,
    more: Seq<usize>,
    latest: bool,
    b: Set<usize>,
)
    requires
        is_best(adj, Set::<usize>::empty(), more, latest, b),
        forall|x: usize| adj.contains_key(x) ==> more.contains(x),
    ensures
        is_maximum_clique(adj, b),
{
    assert forall|t: Set<usize>| #[trigger] is_clique(adj, t) implies t.len() <= b.len() by {
        assert(grows_from(adj, Set::<usize>::empty(), more, t));
    }
}

/// The degree of `g` is what a search reads from a candidate: no list is
/// longer, a graph without nodes has degree zero, and any other has a
/// degree below the number of its nodes.
pub open spec fn is_settled(g: &Graph) -> bool {
    &&& lists_within(g@, g.degree() as nat)
    &&& g@.dom().len() == 0 ==> g.degree() == 0
    &&& g@.dom().len() > 0 ==> g.degree() < g@.dom().len()
}

/// A settled candidate that is complete and has a node has a degree one
/// below the number of its nodes.
pub proof fn lemma_settled_complete(g: &Graph)
    requires
        is_settled(g),
        is_simple(g@),
        is_complete(g@),
        g@.dom().len() > 0,
    ensures
        g.degree() + 1 == g@.dom().len(),
{
    let a = g@.dom().choose();
    assert(g@.contains_key(a));
}

/// Takes the node `n` out of `candidate`, with its edges.
pub fn retract(graph: &Graph, candidate: &mut Graph, n: usize)
    requires
        is_induced(old(candidate)@, graph@),
        old(candidate)@.contains_key(n),
        lists_within(old(candidate)@, old(candidate).degree() as nat),
    ensures
        is_induced(final(candidate)@, graph@),
        final(candidate)@.dom() == old(candidate)@.dom().remove(n),
        lists_within(final(candidate)@, final(candidate).degree() as nat),
        final(candidate).degree() == old(candidate).degree(),
        final(candidate)@ == without_node(old(candidate)@, n),
{
    proof {
        lemma_without_node(candidate@, n);
    }
    candidate.remove_node(n);
}

/// The elements of `order` that `among` holds, in their order.
pub open spec fn kept(order: Seq<usize>, among: Set<usize>) -> Seq<usize>
    decreases order.len(),
{
    if order.len() == 0 {
        Seq::empty()
    } else if among.contains(order.last()) {
        kept(order.drop_last(), among).push(order.last())
    } else {
        kept(order.drop_last(), among)
    }
}

/// The candidate `sub` after the node `n` of `adj` was added to it: the
/// nodes of `sub` that are adjacent to `n` have `n` behind their
/// neighbours, and they are the neighbours of `n`, from the largest
/// identifier down.
pub open spec fn extended(
    adj: Map<usize, Seq<usize>>,
    sub: Map<usize, Seq<usize>>,
    n: usize,
) -> Map<usize, Seq<usize>> {
    Map::new(
        |a: usize| sub.contains_key(a) || a == n,
        |a: usize|
            if a == n {
                kept(descending(sub.dom().insert(n)), adj[n].to_set())
            } else if adj[n].contains(a) {
                sub[a].push(n)
            } else {
                sub[a]
            },
    )
}

/// The candidate `sub` after the nodes of `picks` were added to it, one
/// after another.
pub open spec fn grown(
    adj: Map<usize, Seq<usize>>,
    sub: Map<usize, Seq<usize>>,
    picks: Seq<usize>,
) -> Map<usize, Seq<usize>>
    decreases picks.len(),
{
    if picks.len() == 0 {
        sub
    } else {
        grown(adj, extended(adj, sub, picks[0]), picks.drop_first())
    }
}

/// The subgraph that the search over `order` builds on the nodes `s`: the
/// nodes of `s` are added one after another, in the order of `order`.
pub open spec fn built(
    adj: Map<usize, Seq<usize>>,
    order: Seq<usize>,
    s: Set<usize>,
) -> Map<usize, Seq<usize>> {
    grown(adj, Map::<usize, Seq<usize>>::empty(), kept(order, s))
}

/// Nothing is kept of a sequence none of whose elements is held.
pub proof fn lemma_kept_none(order: Seq<usize>, among: Set<usize>)
    requires
        forall|k: int| 0 <= k < order.len() ==> !among.contains(#[trigger] order[k]),
    ensures
        kept(order, among) == Seq::<usize>::empty(),
    decreases order.len(),
{
    if order.len() > 0 {
        let rest = order.drop_last();
        assert forall|k: int| 0 <= k < rest.len() implies !among.contains(#[trigger] rest[k]) by {
            assert(rest[k] == order[k]);
        }
        lemma_kept_none(rest, among);
    }
}

/// Of a sequence whose node `i` is held and none before it, that node is
/// kept, and then what is kept of the nodes behind it.
pub proof fn lemma_kept_from(order: Seq<usize>, i: int, among: Set<usize>)
    requires
        0 <= i < order.len(),
        among.contains(order[i]),
        forall|k: int| 0 <= k < i ==> !among.contains(#[trigger] order[k]),
    ensures
        kept(order, among) == seq![order[i]] + kept(
            order.subrange(i + 1, order.len() as int),
            among,
        ),
    decreases order.len(),
{
    let rest = order.subrange(i + 1, order.len() as int);
    if i == order.len() - 1 {
        let head = order.drop_last();
        assert forall|k: int| 0 <= k < head.len() implies !among.contains(#[trigger] head[k]) by {
            assert(head[k] == order[k]);
        }
        lemma_kept_none(head, among);
        assert(rest =~= Seq::<usize>::empty());
        assert(kept(order, among) =~= seq![order[i]] + kept(rest, among));
    } else {
        let head = order.drop_last();
        assert(head[i] == order[i]);
        assert forall|k: int| 0 <= k < i implies !among.contains(#[trigger] head[k]) by {
            assert(head[k] == order[k]);
        }
        lemma_kept_from(head, i, among);
        assert(head.subrange(i + 1, head.len() as int) =~= rest.drop_last());
        assert(rest.last() == order.last());
        assert(kept(order, among) =~= seq![order[i]] + kept(rest, among));
    }
}

/// Taking out again the node that was added last gives the candidate back.
pub proof fn lemma_retract_restores(
    adj: Map<usize, Seq<usize>>,
    sub: Map<usize, Seq<usize>>,
    n: usize,
)
    requires
        is_simple(sub),
        !sub.contains_key(n),
    ensures
        without_node(extended(adj, sub, n), n) == sub,
{
    let grown = extended(adj, sub, n);
    let back = without_node(grown, n);
    assert(back.dom() =~= sub.dom());
    assert forall|a: usize| sub.contains_key(a) implies back[a] == sub[a] by {
        assert(!sub[a].contains(n));
        if adj[n].contains(a) {
            lemma_push_then_remove(sub[a], n);
        } else {
            lemma_remove_value(sub[a], n);
        }
    }
    assert(back =~= sub);
}

/// Adds the node `n` of `graph` to `candidate`, with an edge to every node
/// of the candidate that is adjacent to `n` in `graph`.
pub fn extend(graph: &Graph, candidate: &mut Graph, n: usize)
    requires
        is_simple(graph@),
        is_induced(old(candidate)@, graph@),
        graph@.contains_key(n),
        !old(candidate)@.contains_key(n),
        lists_within(old(candidate)@, old(candidate).degree() as nat),
    ensures
        final(candidate)@ == extended(graph@, old(candidate)@, n),
        is_induced(final(candidate)@, graph@),
        final(candidate)@.dom() == old(candidate)@.dom().insert(n),
        lists_within(final(candidate)@, final(candidate).degree() as nat),
        final(candidate).degree() >= old(candidate).degree(),
        final(candidate).degree() <= old(candidate).degree() || final(candidate).degree() <= old(
            candidate,
        )@.dom().len(),
{
    let ghost base = candidate@;
    let ghost low = candidate.degree();
    candidate.insert_node(n);
    proof {
        lemma_with_node(base, n);
        assert(candidate@.dom() =~= base.dom().insert(n));
    }
    let members = candidate.nodes();
    let neighbours = graph.adjlst_of(n);
    let mut j: usize = 0;
    while j < members.len()
        invariant
            j <= members.len(),
            members@.no_duplicates(),
            members@.to_set() == candidate@.dom(),
            members@ == descending(base.dom().insert(n)),
            candidate@[n] == kept(members@.take(j as int), graph@[n].to_set()),
            forall|a: usize|
                base.contains_key(a) ==> #[trigger] candidate@[a] == if graph@[n].contains(a)
                    && members@.take(j as int).contains(a) {
                    base[a].push(n)
                } else {
                    base[a]
                },
            neighbours@ == graph@[n],
            is_simple(graph@),
            graph@.contains_key(n),
            is_simple(base),
            !base.contains_key(n),
            base.dom().finite(),
            candidate@.dom() == base.dom().insert(n),
            is_simple(candidate@),
            forall|a: usize, b: usize|
                base.contains_key(a) && base.contains_key(b) ==> (#[trigger] candidate@[a].contains(
                    b,
                ) <==> base[a].contains(b)),
            forall|a: usize|
                base.contains_key(a) ==> (#[trigger] candidate@[a].contains(n) <==> graph@[n].contains(
                    a,
                ) && members@.take(j as int).contains(a)),
            lists_within(candidate@, candidate.degree() as nat),
            candidate.degree() >= low,
            candidate.degree() <= low || candidate.degree() <= base.dom().len(),
        decreases members.len() - j,
    {
        let c = members[j];
        let ghost before = candidate@;
        let ghost done = members@.take(j as int);
        proof {
            assert(members@.contains(c));
            assert(candidate@.dom().contains(c));
            assert(!done.contains(c)) by {
                if done.contains(c) {
                    let k = choose|k: int| 0 <= k < done.len() && done[k] == c;
                    assert(members@[k] == members@[j as int]);
                }
            }
            assert forall|a: usize|
                members@.take(j + 1).contains(a) <==> done.contains(a) || a == c by {
                assert(members@.take(j + 1) =~= done.push(c));
                crate::adjacency::lemma_push_contains(done, c, a);
            }
            assert(members@.take(j + 1).drop_last() =~= done);
            assert(members@.take(j + 1).last() == c);
        }
        if holds(neighbours, c) {
            proof {
                assert(c != n);
                assert(base.contains_key(c));
                assert(!before[c].contains(n));
                lemma_with_edge(before, c, n);
            }
            candidate.insert_edge((c, n));
            proof {
                lemma_neighbours(candidate@, c);
                lemma_neighbours(candidate@, n);
                assert(candidate@.dom().len() == base.dom().len() + 1);
            }
        }
        j += 1;
    }
    proof {
        assert(members@.take(j as int) =~= members@);
        assert forall|a: usize| base.contains_key(a) implies members@.contains(a) by {
            assert(members@.to_set().contains(a));
        }
        assert(candidate@ =~= extended(graph@, base, n));
        assert forall|a: usize, b: usize|
            #![trigger candidate@[a].contains(b)]
            #![trigger graph@[a].contains(b)]
            candidate@.contains_key(a) && candidate@.contains_key(b) implies (candidate@[a].contains(
            b,
        ) <==> graph@[a].contains(b)) by {
            if a != n && b != n {
                assert(candidate@[a].contains(b) <==> base[a].contains(b));
            } else if a != n && b == n {
                assert(members@.to_set().contains(a));
                assert(members@.contains(a));
                assert(candidate@[a].contains(n) <==> graph@[n].contains(a));
            } else if a == n && b != n {
                assert(members@.to_set().contains(b));
                assert(members@.contains(b));
                assert(candidate@[b].contains(n) <==> graph@[n].contains(b));
            }
        }
    }
}

} // verus!
