//! An undirected graph stored as adjacency lists.

use crate::adjacency::{
    degree_order, degree_rank, edge_count, edge_list, edges_from, edges_over, has_edge,
    is_complete, is_simple, is_simple_at, isolated, lemma_isolated, node_order, total_degree,
    with_edge, without_edge, without_node,
};
use crate::list::{holds, lemma_remove_value, strip};
use crate::order::{
    insert_descending, is_ranked, lemma_descending_is, lemma_descending_len, lemma_insert_ranked,
    lemma_ranking_is, lists_descending, lists_ranked, outranks, strictly_descending,
};
use std::collections::HashMap;
use vstd::math::max;
use vstd::prelude::*;

verus! {

/// An undirected graph: every node is mapped to the list of its neighbours,
/// in the order in which the edges were inserted.
#[derive(Debug, PartialEq)]
pub struct Graph {
    adjmtx: HashMap<usize, Vec<usize>>,
    degree: usize,
}

impl View for Graph {
    type V = Map<usize, Seq<usize>>;

    closed spec fn view(&self) -> Map<usize, Seq<usize>> {
        self.adjmtx@.map_values(|l: Vec<usize>| l@)
    }
}

impl Graph {
    /// The largest length that any adjacency list of this graph has had.
    pub closed spec fn spec_degree(&self) -> usize {
        self.degree
    }

    /// Creates a graph with the disconnected nodes `1..=nodes`.
    pub fn new(nodes: usize) -> (g: Graph)
        requires
            nodes != 0,
        ensures
            g@ == isolated(nodes),
            g.degree() == 0,
            g@.dom().len() == nodes,
            edge_count(g@) == 0,
    {
        let mut adjmtx: HashMap<usize, Vec<usize>> = HashMap::new();
        let mut n: usize = 0;
        while n < nodes
            invariant
                n <= nodes,
                adjmtx@.dom() =~= isolated(n).dom(),
                forall|k: usize| adjmtx@.contains_key(k) ==> (#[trigger] adjmtx@[k])@.len() == 0,
            decreases nodes - n,
        {
            n += 1;
            adjmtx.insert(n, Vec::new());
        }
        let g = Graph { adjmtx, degree: 0 };
        proof {
            assert forall|k: usize| g@.contains_key(k) implies g@[k] == Seq::<usize>::empty() by {
                assert(g.adjmtx@[k]@ =~= Seq::<usize>::empty());
            }
            assert(g@ =~= isolated(nodes));
            lemma_isolated(nodes);
        }
        g
    }

    /// Creates a graph without nodes.
    pub fn new_empty() -> (g: Graph)
        ensures
            g@ == Map::<usize, Seq<usize>>::empty(),
            g.degree() == 0,
    {
        let g = Graph { adjmtx: HashMap::new(), degree: 0 };
        assert(g@ =~= Map::<usize, Seq<usize>>::empty());
        g
    }

    /// Returns the graph degree: the largest length that any adjacency list
    /// has had. Removing a node or an edge does not lower it.
    #[verifier::when_used_as_spec(spec_degree)]
    pub fn degree(&self) -> (d: usize)
        ensures
            d == self.spec_degree(),
    {
        self.degree
    }

    /// Returns the number of neighbours of `n`.
    pub fn degree_of(&self, n: usize) -> (d: usize)
        requires
            self@.contains_key(n),
        ensures
            d == self@[n].len(),
    {
        self.adjlst_of(n).len()
    }

    /// Returns the adjacency list of `n`: its neighbours, in the order in
    /// which the edges were inserted.
    pub fn adjlst_of(&self, n: usize) -> (l: &Vec<usize>)
        requires
            self@.contains_key(n),
        ensures
            l@ == self@[n],
    {
        let l = self.adjmtx.get(&n);
        l.unwrap()
    }

    /// Returns the adjacency list of `n`, as `adjlst_of` does.
    pub fn get_adjlst_of(&self, n: usize) -> (l: &Vec<usize>)
        requires
            self@.contains_key(n),
        ensures
            l@ == self@[n],
    {
        self.adjlst_of(n)
    }

    /// Adds the isolated node `n`.
    pub fn insert_node(&mut self, n: usize)
        requires
            !old(self)@.contains_key(n),
        ensures
            final(self)@ == old(self)@.insert(n, Seq::<usize>::empty()),
            final(self).degree() == old(self).degree(),
    {
        self.adjmtx.insert(n, Vec::new());
        assert(self@ =~= old(self)@.insert(n, Seq::<usize>::empty()));
    }

    /// Appends `e.1` to the list of `e.0` and `e.0` to the list of `e.1`, and
    /// raises the graph degree to the length of the two lists where they
    /// exceed it. Nothing is checked of the edge itself: a loop or an edge
    /// that is there already is listed once more.
    pub fn insert_edge(&mut self, e: (usize, usize))
        requires
            old(self)@.contains_key(e.0),
            old(self)@.contains_key(e.1),
        ensures
            final(self)@ == with_edge(old(self)@, e.0, e.1),
            final(self)@.dom() == old(self)@.dom(),
            final(self).degree() == max(
                old(self).degree() as int,
                max(final(self)@[e.0].len() as int, final(self)@[e.1].len() as int),
            ),
            has_edge(final(self)@, e.0, e.1),
            has_edge(final(self)@, e.1, e.0),
            e.0 != e.1 ==> final(self)@[e.0].len() == old(self)@[e.0].len() + 1,
            e.0 != e.1 ==> final(self)@[e.1].len() == old(self)@[e.1].len() + 1,
    {
        let (a, b) = e;
        self.append(a, b);
        self.append(b, a);
        proof {
            assert(self@ =~= with_edge(old(self)@, a, b));
            assert(self@.dom() =~= old(self)@.dom());
            let last = self@;
            assert(last[b].last() == a);
            if a != b {
                assert(last[a].last() == b);
            } else {
                assert(last[a][last[a].len() - 2] == b);
            }
        }
    }

    /// Appends `b` to the list of `a` and raises the graph degree to the
    /// length of that list where it exceeds it.
    fn append(&mut self, a: usize, b: usize)
        requires
            old(self)@.contains_key(a),
        ensures
            final(self)@ == old(self)@.insert(a, old(self)@[a].push(b)),
            final(self).degree() == max(old(self).degree() as int, final(self)@[a].len() as int),
    {
        let taken = self.adjmtx.remove(&a);
        let mut list = taken.unwrap();
        list.push(b);
        if list.len() > self.degree {
            self.degree = list.len();
        }
        self.adjmtx.insert(a, list);
        assert(self@ =~= old(self)@.insert(a, old(self)@[a].push(b)));
    }

    /// Takes the first `b` out of the list of `a`.
    fn detach(&mut self, a: usize, b: usize)
        requires
            old(self)@.contains_key(a),
        ensures
            final(self)@ == old(self)@.insert(a, old(self)@[a].remove_value(b)),
            final(self).degree() == old(self).degree(),
    {
        let taken = self.adjmtx.remove(&a);
        let mut list = taken.unwrap();
        strip(&mut list, b);
        self.adjmtx.insert(a, list);
        assert(self@ =~= old(self)@.insert(a, old(self)@[a].remove_value(b)));
    }

    /// Deletes the node `n` and takes it out of the adjacency list of every
    /// other node. The graph degree stays as it was.
    pub fn remove_node(&mut self, n: usize)
        requires
            old(self)@.contains_key(n),
        ensures
            final(self)@ == without_node(old(self)@, n),
            final(self).degree() == old(self).degree(),
            final(self)@.dom().len() == old(self)@.dom().len() - 1,
            forall|m: usize|
                final(self)@.contains_key(m) && old(self)@[m].no_duplicates() ==> !(
                #[trigger] final(self)@[m]).contains(n),
    {
        self.adjmtx.remove(&n);
        let ghost start = self@;
        assert(start =~= old(self)@.remove(n));
        let others = self.nodes();
        let mut i: usize = 0;
        while i < others.len()
            invariant
                i <= others.len(),
                others@ == node_order(start),
                lists_descending(others@, start.dom()),
                self@.dom() == start.dom(),
                self.degree() == old(self).degree(),
                forall|j: int|
                    0 <= j < i ==> self@[#[trigger] others@[j]] == start[others@[j]].remove_value(
                        n,
                    ),
                forall|j: int|
                    i <= j < others.len() ==> self@[#[trigger] others@[j]] == start[others@[j]],
            decreases others.len() - i,
        {
            let k = others[i];
            assert(others@.contains(k));
            assert(start.dom().contains(k));
            let ghost before = self@;
            self.detach(k, n);
            proof {
                lemma_descending_len(others@);
                assert forall|j: int| 0 <= j < others.len() && j != i implies self@[others@[j]]
                    == before[others@[j]] by {}
                assert(self@.dom() =~= start.dom());
            }
            i += 1;
        }
        proof {
            assert forall|k: usize| start.contains_key(k) implies self@[k] == start[k].remove_value(
                n,
            ) by {
                assert(others@.to_set().contains(k));
                let j = choose|j: int| 0 <= j < others@.len() && others@[j] == k;
                assert(self@[others@[j]] == start[others@[j]].remove_value(n));
            }
            assert(self@ =~= without_node(old(self)@, n));
            assert forall|m: usize|
                self@.contains_key(m) && old(self)@[m].no_duplicates() implies !(
            #[trigger] self@[m]).contains(n) by {
                lemma_remove_value(old(self)@[m], n);
            }
            assert(self@.dom() =~= old(self)@.dom().remove(n));
            assert(old(self)@.dom().finite()) by {
                assert(old(self)@.dom() =~= old(self).adjmtx@.dom());
            }
        }
    }

    /// Takes the first `e.1` out of the list of `e.0`, and the first `e.0`
    /// out of the list of `e.1`. The graph degree stays as it was.
    pub fn remove_edge(&mut self, e: (usize, usize))
        requires
            has_edge(old(self)@, e.0, e.1),
        ensures
            final(self)@ == without_edge(old(self)@, e.0, e.1),
            final(self)@.dom() == old(self)@.dom(),
            final(self).degree() == old(self).degree(),
    {
        let (a, b) = e;
        self.detach(a, b);
        self.detach(b, a);
        assert(self@ =~= without_edge(old(self)@, a, b));
        assert(self@.dom() =~= old(self)@.dom());
    }

    /// Tells whether `n` is a node of the graph.
    pub fn contains_node(&self, n: usize) -> (b: bool)
        ensures
            b == self@.contains_key(n),
    {
        self.adjmtx.contains_key(&n)
    }

    /// Tells whether both ends of `e` are nodes and each is listed as a
    /// neighbour of the other.
    pub fn contains_edge(&self, e: (usize, usize)) -> (b: bool)
        ensures
            b == has_edge(self@, e.0, e.1),
    {
        if !self.contains_node(e.0) {
            return false;
        }
        if !self.contains_node(e.1) {
            return false;
        }
        if !holds(self.adjlst_of(e.0), e.1) {
            return false;
        }
        if !holds(self.adjlst_of(e.1), e.0) {
            return false;
        }
        true
    }

    /// Tells whether every node has as many neighbours as there are other
    /// nodes. A graph without nodes, or with one isolated node, is complete.
    pub fn is_complete(&self) -> (b: bool)
        ensures
            b == is_complete(self@),
    {
        let count = self.nlen();
        let all = self.nodes();
        let mut i: usize = 0;
        while i < all.len()
            invariant
                i <= all.len(),
                count == self@.dom().len(),
                lists_descending(all@, self@.dom()),
                forall|j: int| 0 <= j < i ==> self@[#[trigger] all@[j]].len() + 1 == count,
            decreases all.len() - i,
        {
            let k = all[i];
            assert(all@.contains(k));
            assert(self@.dom().contains(k));
            if self.degree_of(k) != count - 1 {
                return false;
            }
            i += 1;
        }
        proof {
            assert forall|a: usize| #[trigger] self@.contains_key(a) implies self@[a].len() + 1
                == self@.dom().len() by {
                assert(all@.to_set().contains(a));
                let j = choose|j: int| 0 <= j < all@.len() && all@[j] == a;
                assert(self@[all@[j]].len() + 1 == count);
            }
        }
        true
    }

    /// Tells whether the graph is simple: every neighbour is a node,
    /// adjacency is symmetric, and no list holds its own node or a node
    /// twice.
    pub fn is_simple(&self) -> (b: bool)
        ensures
            b == is_simple(self@),
    {
        assert(self@.dom() =~= self.adjmtx@.dom());
        let all = self.nodes();
        let mut i: usize = 0;
        while i < all.len()
            invariant
                i <= all.len(),
                lists_descending(all@, self@.dom()),
                self@.dom().finite(),
                forall|k: int| 0 <= k < i ==> is_simple_at(self@, #[trigger] all@[k]),
            decreases all.len() - i,
        {
            let a = all[i];
            assert(all@.contains(a));
            assert(self@.dom().contains(a));
            if !self.is_simple_at(a) {
                return false;
            }
            i += 1;
        }
        proof {
            assert forall|a: usize| self@.contains_key(a) implies is_simple_at(self@, a) by {
                assert(all@.to_set().contains(a));
                let k = choose|k: int| 0 <= k < all@.len() && all@[k] == a;
                assert(is_simple_at(self@, all@[k]));
            }
        }
        true
    }

    /// Tells whether the list of the node `a` holds only other nodes, each
    /// once, that list `a` in turn.
    fn is_simple_at(&self, a: usize) -> (b: bool)
        requires
            self@.contains_key(a),
        ensures
            b == is_simple_at(self@, a),
    {
        let list = self.adjlst_of(a);
        let mut j: usize = 0;
        while j < list.len()
            invariant
                j <= list.len(),
                list@ == self@[a],
                self@.contains_key(a),
                forall|k: int|
                    0 <= k < j ==> (#[trigger] list@[k]) != a && self@.contains_key(list@[k])
                        && self@[list@[k]].contains(a),
                forall|k: int, l: int| 0 <= k < l < j ==> list@[k] != list@[l],
            decreases list.len() - j,
        {
            let b = list[j];
            assert(list@.contains(b));
            if b == a || !self.contains_node(b) || !holds(self.adjlst_of(b), a) {
                return false;
            }
            let mut k: usize = 0;
            while k < j
                invariant
                    k <= j < list.len(),
                    list@ == self@[a],
                    b == list@[j as int],
                    forall|l: int| 0 <= l < k ==> list@[l] != b,
                decreases j - k,
            {
                if list[k] == b {
                    return false;
                }
                k += 1;
            }
            j += 1;
        }
        proof {
            assert forall|x: usize| self@[a].contains(x) implies self@.contains_key(x)
                && self@[x].contains(a) by {
                let k = choose|k: int| 0 <= k < list@.len() && list@[k] == x;
                assert(list@[k] != a);
            }
            assert(!self@[a].contains(a)) by {
                if self@[a].contains(a) {
                    let k = choose|k: int| 0 <= k < list@.len() && list@[k] == a;
                    assert(list@[k] != a);
                }
            }
        }
        true
    }

    /// Tells whether the graph has no node. A graph that was emptied by
    /// removals and still has a degree above zero may not be asked.
    pub fn is_empty(&self) -> (b: bool)
        requires
            self@.dom().is_empty() ==> self.degree() == 0,
        ensures
            b == self@.dom().is_empty(),
    {
        assert(self@.dom() =~= self.adjmtx@.dom());
        self.adjmtx.is_empty()
    }

    /// Returns the number of nodes.
    pub fn nlen(&self) -> (count: usize)
        ensures
            count == self@.dom().len(),
    {
        assert(self@.dom() =~= self.adjmtx@.dom());
        self.adjmtx.len()
    }

    /// Returns the number of edges: half the sum of the lengths of all
    /// adjacency lists.
    pub fn elen(&self) -> (count: usize)
        requires
            edge_count(self@) <= usize::MAX,
        ensures
            count == edge_count(self@),
    {
        let total = self.total_degree();
        (total / 2) as usize
    }

    /// Returns the sum of the lengths of all adjacency lists.
    pub(crate) fn total_degree(&self) -> (total: u128)
        ensures
            total == total_degree(self@, node_order(self@)),
    {
        let all = self.nodes();
        let mut total: u128 = 0;
        let mut i: usize = 0;
        while i < all.len()
            invariant
                i <= all.len(),
                lists_descending(all@, self@.dom()),
                total == total_degree(self@, all@.take(i as int)),
                total <= i * usize::MAX,
            decreases all.len() - i,
        {
            let k = all[i];
            assert(all@.contains(k));
            assert(self@.dom().contains(k));
            let d = self.degree_of(k);
            proof {
                assert(all@.take(i + 1).drop_last() =~= all@.take(i as int));
                assert((i + 1) * usize::MAX == i * usize::MAX + usize::MAX) by (nonlinear_arith);
                assert(i * usize::MAX <= usize::MAX * usize::MAX) by (nonlinear_arith)
                    requires
                        i <= usize::MAX,
                ;
                assert(usize::MAX * usize::MAX + usize::MAX <= u128::MAX) by (nonlinear_arith)
                    requires
                        usize::MAX <= u64::MAX,
                ;
            }
            total = total + d as u128;
            i += 1;
        }
        assert(all@.take(i as int) =~= all@);
        total
    }
}

impl Default for Graph {
    /// Creates a graph without nodes.
    fn default() -> (g: Graph)
        ensures
            g@ == Map::<usize, Seq<usize>>::empty(),
            g.degree() == 0,
    {
        Graph::new_empty()
    }
}

impl Graph {
    /// The nodes of the graph, from the largest identifier down.
    pub fn nodes(&self) -> (r: Vec<usize>)
        ensures
            r@ == node_order(self@),
            lists_descending(r@, self@.dom()),
            r@.no_duplicates(),
            r@.len() == self@.dom().len(),
    {
        let mut r: Vec<usize> = Vec::new();
        for k in it: self.adjmtx.keys()
            invariant
                strictly_descending(r@),
                r@.to_set() == it.seq().unref().take(it.index()).to_set(),
                it.seq().unref().no_duplicates(),
                it.seq().unref().to_set() == self.adjmtx@.dom(),
                it.index() == it.seq().len() ==> r@.to_set() == self.adjmtx@.dom(),
        {
            assert(!it.seq().unref().take(it.index()).contains(*k)) by {
                assert(forall|j: int|
                    0 <= j < it.index() ==> it.seq().unref().take(it.index())[j]
                        != it.seq().unref()[it.index()]);
            }
            assert(!r@.contains(*k)) by {
                assert(!r@.to_set().contains(*k));
            }
            assert(it.seq().unref().take(it.index() + 1).to_set() == r@.to_set().insert(*k)) by {
                assert(it.seq().unref().take(it.index() + 1) =~= it.seq().unref().take(
                    it.index(),
                ).push(*k));
                it.seq().unref().take(it.index()).lemma_push_to_set_commute(*k);
            }
            assert(it.index() + 1 == it.seq().len() ==> it.seq().unref().take(it.index() + 1)
                =~= it.seq().unref());
            insert_descending(&mut r, *k);
        }
        proof {
            assert(self@.dom() =~= self.adjmtx@.dom());
            lemma_descending_is(r@, self@.dom());
        }
        r
    }
}

impl Graph {
    /// The edges of the graph, each as the pair of its smaller and its
    /// larger end. An edge is taken from the list of its smaller end, so
    /// that in a simple graph every edge comes once.
    pub fn edges(&self) -> (r: Vec<(usize, usize)>)
        ensures
            r@ == edge_list(self@),
    {
        let all = self.nodes();
        let mut r: Vec<(usize, usize)> = Vec::new();
        let mut i: usize = 0;
        while i < all.len()
            invariant
                i <= all.len(),
                lists_descending(all@, self@.dom()),
                r@ == edges_over(self@, all@.take(i as int)),
            decreases all.len() - i,
        {
            let a = all[i];
            assert(all@.contains(a));
            assert(self@.dom().contains(a));
            let list = self.adjlst_of(a);
            let ghost done = r@;
            let mut j: usize = 0;
            while j < list.len()
                invariant
                    j <= list.len(),
                    r@ == done + edges_from(a, list@.take(j as int)),
                decreases list.len() - j,
            {
                let b = list[j];
                proof {
                    assert(list@.take(j + 1).drop_last() =~= list@.take(j as int));
                }
                if a < b {
                    r.push((a, b));
                }
                j += 1;
            }
            proof {
                assert(list@.take(j as int) =~= list@);
                assert(all@.take(i + 1).drop_last() =~= all@.take(i as int));
            }
            i += 1;
        }
        assert(all@.take(i as int) =~= all@);
        r
    }

    /// The nodes of the graph by the number of their neighbours, most
    /// first; those with equally many from the largest identifier down.
    pub fn nodes_ord_by_degree(&self) -> (r: Vec<usize>)
        ensures
            r@ == degree_order(self@),
            lists_ranked(degree_rank(self@), r@, self@.dom()),
            r@.no_duplicates(),
            r@.len() == self@.dom().len(),
    {
        let all = self.nodes();
        let ghost rank = degree_rank(self@);
        let mut r: Vec<usize> = Vec::new();
        let mut i: usize = 0;
        while i < all.len()
            invariant
                i <= all.len(),
                all@.no_duplicates(),
                all@.to_set() == self@.dom(),
                rank == degree_rank(self@),
                is_ranked(rank, r@),
                r@.to_set() == all@.take(i as int).to_set(),
                forall|k: int| 0 <= k < r@.len() ==> self@.contains_key(#[trigger] r@[k]),
            decreases all.len() - i,
        {
            let x = all[i];
            let ghost seen = all@.take(i as int);
            proof {
                assert(all@.contains(x));
                assert(self@.dom().contains(x));
                assert(!r@.contains(x)) by {
                    if r@.contains(x) {
                        assert(seen.to_set().contains(x));
                        let k = choose|k: int| 0 <= k < seen.len() && seen[k] == x;
                        assert(all@[k] == all@[i as int]);
                    }
                }
                assert(all@.take(i + 1) =~= seen.push(x));
                seen.lemma_push_to_set_commute(x);
            }
            let d = self.degree_of(x);
            let mut p: usize = 0;
            while p < r.len() && self.comes_before(r[p], x, d)
                invariant
                    p <= r.len(),
                    self@.contains_key(x),
                    d == self@[x].len(),
                    rank == degree_rank(self@),
                    forall|k: int| 0 <= k < r@.len() ==> self@.contains_key(#[trigger] r@[k]),
                    forall|k: int| 0 <= k < p ==> outranks(rank, r@[k], x),
                decreases r.len() - p,
            {
                p += 1;
            }
            proof {
                lemma_insert_ranked(rank, r@, p as int, x);
            }
            let ghost before = r@;
            r.insert(p, x);
            proof {
                assert forall|k: int| 0 <= k < r@.len() implies self@.contains_key(
                    #[trigger] r@[k],
                ) by {
                    if k < p {
                        assert(r@[k] == before[k]);
                    } else if k > p {
                        assert(r@[k] == before[k - 1]);
                    }
                }
            }
            i += 1;
        }
        proof {
            assert(all@.take(i as int) =~= all@);
            lemma_ranking_is(rank, r@, self@.dom());
        }
        r
    }

    /// Tells whether the node `a` comes before a node `x` with `d`
    /// neighbours: it has more neighbours, or as many and the larger
    /// identifier.
    fn comes_before(&self, a: usize, x: usize, d: usize) -> (b: bool)
        requires
            self@.contains_key(a),
        ensures
            b == (self@[a].len() > d || (self@[a].len() == d && a > x)),
    {
        let da = self.degree_of(a);
        da > d || (da == d && a > x)
    }
}

impl Clone for Graph {
    fn clone(&self) -> (g: Graph)
        ensures
            g@ == self@,
            g.degree() == self.degree(),
    {
        Graph { adjmtx: self.adjmtx.clone(), degree: self.degree }
    }
}

} // verus!
