//! Searching and shortening one adjacency list.

use vstd::prelude::*;

verus! {

/// The index of the first `x` in `list`, if `list` holds `x`.
pub fn first_index(list: &Vec<usize>, x: usize) -> (r: Option<usize>)
    ensures
        match r {
            Some(i) => i < list.len() && list@.index_of_first(x) == Some(i as int),
            None => list@.index_of_first(x).is_none(),
        },
        r.is_some() == list@.contains(x),
{
    let mut i: usize = 0;
    while i < list.len()
        invariant
            i <= list.len(),
            forall|j: int| 0 <= j < i ==> list@[j] != x,
        decreases list.len() - i,
    {
        if list[i] == x {
            proof {
                list@.index_of_first_ensures(x);
            }
            return Some(i);
        }
        i += 1;
    }
    proof {
        list@.index_of_first_ensures(x);
    }
    None
}

/// Tells whether `list` holds `x`.
pub fn holds(list: &Vec<usize>, x: usize) -> (b: bool)
    ensures
        b == list@.contains(x),
{
    first_index(list, x).is_some()
}

/// Takes the first `x` out of `list`, if `list` holds `x`.
pub fn strip(list: &mut Vec<usize>, x: usize)
    ensures
        final(list)@ == old(list)@.remove_value(x),
{
    match first_index(list, x) {
        Some(i) => {
            list.remove(i);
        },
        None => {},
    }
}

/// A list without duplicates no longer holds `x` once its first `x` is
/// taken out, and keeps every other element just where it was relative to
/// the rest.
pub proof fn lemma_remove_value(s: Seq<usize>, x: usize)
    ensures
        s.remove_value(x).len() == if s.contains(x) {
            s.len() - 1
        } else {
            s.len() as int
        },
        forall|y: usize| y != x ==> (s.remove_value(x).contains(y) <==> s.contains(y)),
        s.no_duplicates() ==> s.remove_value(x).no_duplicates() && !s.remove_value(x).contains(x),
        !s.contains(x) ==> s.remove_value(x) == s,
{
    s.index_of_first_ensures(x);
    let t = s.remove_value(x);
    match s.index_of_first(x) {
        Some(i) => {
            assert(t.len() == s.len() - 1);
            assert forall|k: int| 0 <= k < t.len() implies t[k] == (if k < i {
                s[k]
            } else {
                s[k + 1]
            }) by {}
            assert forall|y: usize| y != x implies (t.contains(y) <==> s.contains(y)) by {
                if t.contains(y) {
                    let k = choose|k: int| 0 <= k < t.len() && t[k] == y;
                    if k < i {
                        assert(s[k] == y);
                    } else {
                        assert(s[k + 1] == y);
                    }
                }
                if s.contains(y) {
                    let k = choose|k: int| 0 <= k < s.len() && s[k] == y;
                    if k < i {
                        assert(t[k] == y);
                    } else {
                        assert(t[k - 1] == y);
                    }
                }
            }
            if s.no_duplicates() {
                assert forall|a: int, b: int|
                    0 <= a < t.len() && 0 <= b < t.len() && a != b implies t[a] != t[b] by {
                    let sa = if a < i { a } else { a + 1 };
                    let sb = if b < i { b } else { b + 1 };
                    assert(t[a] == s[sa] && t[b] == s[sb]);
                }
                if t.contains(x) {
                    let k = choose|k: int| 0 <= k < t.len() && t[k] == x;
                    let sk = if k < i { k } else { k + 1 };
                    assert(s[sk] == x && s[i] == x && sk != i);
                }
            }
        },
        None => {},
    }
}

/// Taking out the element that was pushed last, and is not held otherwise,
/// gives the list back.
pub proof fn lemma_push_then_remove(s: Seq<usize>, x: usize)
    requires
        !s.contains(x),
    ensures
        s.push(x).remove_value(x) == s,
{
    let p = s.push(x);
    p.index_of_first_ensures(x);
    assert(p[s.len() as int] == x);
    assert(p.contains(x));
    let i = p.index_of_first(x).unwrap();
    if i < s.len() {
        assert(s[i] == x);
        assert(s.contains(x));
    }
    assert(p.remove(i) =~= s);
}

} // verus!
