//! The orders in which the nodes of a graph are listed: by rank, the higher
//! rank first, and among nodes of one rank from the largest identifier down.

use vstd::prelude::*;

verus! {

/// The rank under which nodes are listed by their identifiers alone.
pub open spec fn no_rank() -> spec_fn(usize) -> nat {
    |x: usize| 0nat
}

/// `a` comes before `b`: it has the higher rank, or the same rank and the
/// larger identifier.
pub open spec fn outranks(rank: spec_fn(usize) -> nat, a: usize, b: usize) -> bool {
    rank(a) > rank(b) || (rank(a) == rank(b) && a > b)
}

/// Every element of `q` comes before all the elements behind it.
pub open spec fn is_ranked(rank: spec_fn(usize) -> nat, q: Seq<usize>) -> bool {
    forall|i: int, j: int| 0 <= i < j < q.len() ==> outranks(rank, q[i], q[j])
}

/// `q` holds exactly the elements of `s`, in the order of `rank`.
pub open spec fn lists_ranked(rank: spec_fn(usize) -> nat, q: Seq<usize>, s: Set<usize>) -> bool {
    is_ranked(rank, q) && q.to_set() == s
}

/// The elements of the finite set `s`, in the order of `rank`.
pub open spec fn ranking(rank: spec_fn(usize) -> nat, s: Set<usize>) -> Seq<usize> {
    choose|q: Seq<usize>| lists_ranked(rank, q, s)
}

/// Every element of `q` is larger than all the elements behind it.
pub open spec fn strictly_descending(q: Seq<usize>) -> bool {
    is_ranked(no_rank(), q)
}

/// `q` holds exactly the elements of `s`, from the largest down.
pub open spec fn lists_descending(q: Seq<usize>, s: Set<usize>) -> bool {
    lists_ranked(no_rank(), q, s)
}

/// The elements of the finite set `s`, from the largest down.
pub open spec fn descending(s: Set<usize>) -> Seq<usize> {
    ranking(no_rank(), s)
}

/// `m` is an element of `s` that comes before all the others.
pub open spec fn is_top_of(rank: spec_fn(usize) -> nat, s: Set<usize>, m: usize) -> bool {
    s.contains(m) && forall|x: usize| s.contains(x) && x != m ==> outranks(rank, m, x)
}

/// A ranked sequence holds no element twice, so it is as long as its set of
/// elements is large.
pub proof fn lemma_ranked_len(rank: spec_fn(usize) -> nat, q: Seq<usize>)
    requires
        is_ranked(rank, q),
    ensures
        q.no_duplicates(),
        q.to_set().len() == q.len(),
        q.to_set().finite(),
{
    assert forall|i: int, j: int| 0 <= i < q.len() && 0 <= j < q.len() && i != j implies q[i]
        != q[j] by {
        if i < j {
            assert(outranks(rank, q[i], q[j]));
        } else {
            assert(outranks(rank, q[j], q[i]));
        }
    }
    q.unique_seq_to_set();
    vstd::seq_lib::seq_to_set_is_finite(q);
}

/// A strictly descending sequence holds no element twice, so it is as long
/// as its set of elements is large.
pub proof fn lemma_descending_len(q: Seq<usize>)
    requires
        strictly_descending(q),
    ensures
        q.no_duplicates(),
        q.to_set().len() == q.len(),
        q.to_set().finite(),
        forall|i: int, j: int| 0 <= i < j < q.len() ==> q[i] > q[j],
{
    lemma_ranked_len(no_rank(), q);
    assert forall|i: int, j: int| 0 <= i < j < q.len() implies q[i] > q[j] by {
        assert(outranks(no_rank(), q[i], q[j]));
    }
}

proof fn lemma_top_exists(rank: spec_fn(usize) -> nat, s: Set<usize>)
    requires
        s.finite(),
        !s.is_empty(),
    ensures
        exists|m: usize| is_top_of(rank, s, m),
    decreases s.len(),
{
    let x = s.choose();
    let r = s.remove(x);
    if r.is_empty() {
        assert forall|y: usize| s.contains(y) && y != x implies outranks(rank, x, y) by {
            assert(r.contains(y));
        }
        assert(is_top_of(rank, s, x));
    } else {
        lemma_top_exists(rank, r);
        let m = choose|m: usize| is_top_of(rank, r, m);
        if outranks(rank, x, m) {
            assert forall|y: usize| s.contains(y) && y != x implies outranks(rank, x, y) by {
                assert(r.contains(y));
            }
            assert(is_top_of(rank, s, x));
        } else {
            assert forall|y: usize| s.contains(y) && y != m implies outranks(rank, m, y) by {
                if y != x {
                    assert(r.contains(y));
                }
            }
            assert(is_top_of(rank, s, m));
        }
    }
}

/// Every finite set can be listed in the order of a rank.
pub proof fn lemma_ranking_exists(rank: spec_fn(usize) -> nat, s: Set<usize>)
    requires
        s.finite(),
    ensures
        lists_ranked(rank, ranking(rank, s), s),
    decreases s.len(),
{
    if s.is_empty() {
        let q = Seq::<usize>::empty();
        assert(q.to_set() =~= s);
        assert(lists_ranked(rank, q, s));
    } else {
        lemma_top_exists(rank, s);
        let m = choose|m: usize| is_top_of(rank, s, m);
        let r = s.remove(m);
        lemma_ranking_exists(rank, r);
        let t = ranking(rank, r);
        let q = seq![m] + t;
        assert forall|i: int, j: int| 0 <= i < j < q.len() implies outranks(rank, q[i], q[j]) by {
            assert(q[j] == t[j - 1]);
            assert(t.contains(t[j - 1]));
            assert(r.contains(q[j]));
            if i > 0 {
                assert(q[i] == t[i - 1]);
            }
        }
        assert forall|x: usize| q.to_set().contains(x) <==> s.contains(x) by {
            if q.contains(x) {
                let i = choose|i: int| 0 <= i < q.len() && q[i] == x;
                if i > 0 {
                    assert(q[i] == t[i - 1]);
                    assert(t.contains(x));
                    assert(r.contains(x));
                }
            }
            if s.contains(x) {
                if x == m {
                    assert(q[0] == x);
                } else {
                    assert(r.contains(x));
                    assert(t.contains(x));
                    let i = choose|i: int| 0 <= i < t.len() && t[i] == x;
                    assert(q[i + 1] == x);
                }
            }
        }
        assert(q.to_set() =~= s);
        assert(lists_ranked(rank, q, s));
    }
}

/// Two sequences in the order of one rank, with the same elements, are
/// equal.
pub proof fn lemma_ranked_unique(rank: spec_fn(usize) -> nat, p: Seq<usize>, q: Seq<usize>)
    requires
        is_ranked(rank, p),
        is_ranked(rank, q),
        p.to_set() == q.to_set(),
    ensures
        p == q,
    decreases p.len(),
{
    lemma_ranked_len(rank, p);
    lemma_ranked_len(rank, q);
    if p.len() == 0 {
        assert(p =~= q);
    } else {
        assert(p.contains(p[0]));
        assert(q.to_set().contains(p[0]));
        assert(q.contains(q[0]));
        assert(p.to_set().contains(q[0]));
        let i = choose|i: int| 0 <= i < q.len() && q[i] == p[0];
        let j = choose|j: int| 0 <= j < p.len() && p[j] == q[0];
        assert(p[0] == q[0]) by {
            if i != 0 {
                assert(outranks(rank, q[0], q[i]));
            }
            if j != 0 {
                assert(outranks(rank, p[0], p[j]));
            }
        }
        let pt = p.drop_first();
        let qt = q.drop_first();
        assert forall|x: usize| pt.to_set().contains(x) <==> qt.to_set().contains(x) by {
            if pt.contains(x) {
                let k = choose|k: int| 0 <= k < pt.len() && pt[k] == x;
                assert(p[k + 1] == x);
                assert(p.contains(x));
                assert(q.to_set().contains(x));
                let l = choose|l: int| 0 <= l < q.len() && q[l] == x;
                assert(l != 0);
                assert(qt[l - 1] == x);
            }
            if qt.contains(x) {
                let k = choose|k: int| 0 <= k < qt.len() && qt[k] == x;
                assert(q[k + 1] == x);
                assert(q.contains(x));
                assert(p.to_set().contains(x));
                let l = choose|l: int| 0 <= l < p.len() && p[l] == x;
                assert(l != 0);
                assert(pt[l - 1] == x);
            }
        }
        assert(pt.to_set() =~= qt.to_set());
        assert(is_ranked(rank, pt)) by {
            assert forall|a: int, b: int| 0 <= a < b < pt.len() implies outranks(
                rank,
                pt[a],
                pt[b],
            ) by {
                assert(pt[a] == p[a + 1] && pt[b] == p[b + 1]);
            }
        }
        assert(is_ranked(rank, qt)) by {
            assert forall|a: int, b: int| 0 <= a < b < qt.len() implies outranks(
                rank,
                qt[a],
                qt[b],
            ) by {
                assert(qt[a] == q[a + 1] && qt[b] == q[b + 1]);
            }
        }
        lemma_ranked_unique(rank, pt, qt);
        assert(p =~= q) by {
            assert forall|k: int| 0 <= k < p.len() implies p[k] == q[k] by {
                if k > 0 {
                    assert(pt[k - 1] == p[k]);
                    assert(qt[k - 1] == q[k]);
                }
            }
        }
    }
}

/// A sequence that lists `s` in the order of `rank` is `ranking(rank, s)`.
pub proof fn lemma_ranking_is(rank: spec_fn(usize) -> nat, q: Seq<usize>, s: Set<usize>)
    requires
        lists_ranked(rank, q, s),
    ensures
        q == ranking(rank, s),
        q.no_duplicates(),
        s.finite(),
        s.len() == q.len(),
{
    lemma_ranked_len(rank, q);
    lemma_ranked_unique(rank, q, ranking(rank, s));
}

/// A sequence that lists `s` from the largest element down is
/// `descending(s)`.
pub proof fn lemma_descending_is(q: Seq<usize>, s: Set<usize>)
    requires
        lists_descending(q, s),
    ensures
        q == descending(s),
        q.no_duplicates(),
        s.finite(),
        s.len() == q.len(),
{
    lemma_ranking_is(no_rank(), q, s);
}

/// Every finite set can be listed from its largest element down.
pub proof fn lemma_descending_exists(s: Set<usize>)
    requires
        s.finite(),
    ensures
        lists_descending(descending(s), s),
{
    lemma_ranking_exists(no_rank(), s);
}

/// A ranked sequence stays ranked when an element that it lacks is put
/// behind all that come before it and in front of the rest.
pub proof fn lemma_insert_ranked(rank: spec_fn(usize) -> nat, q: Seq<usize>, p: int, x: usize)
    requires
        is_ranked(rank, q),
        !q.contains(x),
        0 <= p <= q.len(),
        forall|k: int| 0 <= k < p ==> outranks(rank, q[k], x),
        p < q.len() ==> !outranks(rank, q[p], x),
    ensures
        is_ranked(rank, q.insert(p, x)),
        q.insert(p, x).to_set() == q.to_set().insert(x),
        q.insert(p, x).len() == q.len() + 1,
{
    let after = q.insert(p, x);
    assert(after.len() == q.len() + 1);
    assert forall|k: int| 0 <= k < after.len() implies after[k] == (if k < p {
        q[k]
    } else if k == p {
        x
    } else {
        q[k - 1]
    }) by {}
    assert forall|i: int, j: int| 0 <= i < j < after.len() implies outranks(
        rank,
        after[i],
        after[j],
    ) by {
        if j > p {
            assert(q.contains(q[j - 1]));
            if i == p {
                assert(q.contains(q[p]));
                assert(q[p] != x);
                assert(!outranks(rank, q[p], x));
                assert(outranks(rank, x, q[p]));
                if j - 1 > p {
                    assert(outranks(rank, q[p], q[j - 1]));
                }
            } else if i < p {
                assert(outranks(rank, q[i], q[j - 1]));
            } else {
                assert(outranks(rank, q[i - 1], q[j - 1]));
            }
        }
    }
    assert forall|y: usize| after.to_set().contains(y) <==> q.to_set().insert(x).contains(y) by {
        if after.contains(y) {
            let k = choose|k: int| 0 <= k < after.len() && after[k] == y;
            if k < p {
                assert(q.contains(y));
            } else if k > p {
                assert(q[k - 1] == y);
                assert(q.contains(y));
            }
        }
        if q.contains(y) {
            let k = choose|k: int| 0 <= k < q.len() && q[k] == y;
            if k < p {
                assert(after[k] == y);
            } else {
                assert(after[k + 1] == y);
            }
        }
        if y == x {
            assert(after[p] == x);
        }
    }
    assert(after.to_set() =~= q.to_set().insert(x));
}

/// Puts `x` into the strictly descending `v`, at the place that keeps it so.
pub fn insert_descending(v: &mut Vec<usize>, x: usize)
    requires
        strictly_descending(old(v)@),
        !old(v)@.contains(x),
    ensures
        strictly_descending(final(v)@),
        final(v)@.to_set() == old(v)@.to_set().insert(x),
        final(v)@.len() == old(v)@.len() + 1,
{
    let mut p: usize = 0;
    while p < v.len() && v[p] > x
        invariant
            p <= v.len(),
            forall|k: int| 0 <= k < p ==> outranks(no_rank(), v[k], x),
        decreases v.len() - p,
    {
        p += 1;
    }
    proof {
        lemma_insert_ranked(no_rank(), v@, p as int, x);
    }
    v.insert(p, x);
}

} // verus!
