//! Text as bytes: cutting it at a separator, and decimal numbers read from
//! it and written to it.

use vstd::prelude::*;

verus! {

/// The pieces of `s` between the bytes equal to `sep`: one piece more than
/// there are such bytes.
pub open spec fn split(s: Seq<u8>, sep: u8) -> Seq<Seq<u8>>
    decreases s.len(),
{
    if s.len() == 0 {
        seq![Seq::<u8>::empty()]
    } else {
        let before = split(s.drop_last(), sep);
        if s.last() == sep {
            before.push(Seq::<u8>::empty())
        } else {
            before.drop_last().push(before.last().push(s.last()))
        }
    }
}

/// The pieces that `pieces` holds, as values.
pub open spec fn views(pieces: Seq<Vec<u8>>) -> Seq<Seq<u8>> {
    pieces.map_values(|p: Vec<u8>| p@)
}

/// Cuts `s` at every byte equal to `sep`.
pub fn split_at(s: &[u8], sep: u8) -> (pieces: Vec<Vec<u8>>)
    ensures
        views(pieces@) == split(s@, sep),
        pieces@.len() >= 1,
{
    let mut done: Vec<Vec<u8>> = Vec::new();
    let mut piece: Vec<u8> = Vec::new();
    let mut i: usize = 0;
    while i < s.len()
        invariant
            i <= s.len(),
            views(done@).push(piece@) == split(s@.take(i as int), sep),
        decreases s.len() - i,
    {
        let b = s[i];
        proof {
            assert(s@.take(i + 1).drop_last() =~= s@.take(i as int));
            assert(s@.take(i + 1).last() == b);
            let before = split(s@.take(i as int), sep);
            assert(before.last() == piece@);
            assert(before.drop_last() =~= views(done@));
        }
        if b == sep {
            let ghost old_done = done@;
            done.push(piece);
            piece = Vec::new();
            proof {
                assert(views(done@) =~= views(old_done).push(done@.last()@));
            }
        } else {
            piece.push(b);
        }
        i += 1;
    }
    let ghost old_done = done@;
    done.push(piece);
    proof {
        assert(s@.take(i as int) =~= s@);
        assert(views(done@) =~= views(old_done).push(done@.last()@));
    }
    done
}

/// Appends the bytes of `more` to `out`.
pub fn append(out: &mut Vec<u8>, more: &[u8])
    ensures
        final(out)@ == old(out)@ + more@,
{
    let mut i: usize = 0;
    while i < more.len()
        invariant
            i <= more.len(),
            out@ == old(out)@ + more@.take(i as int),
        decreases more.len() - i,
    {
        out.push(more[i]);
        assert(more@.take(i + 1) =~= more@.take(i as int).push(more@[i as int]));
        i += 1;
    }
    assert(more@.take(i as int) =~= more@);
}

/// Space, tab, line feed, vertical tab, form feed and carriage return.
pub open spec fn is_blank(b: u8) -> bool {
    b == 32 || (9 <= b && b <= 13)
}

/// `s` without the blanks at its start.
pub open spec fn trim_start(s: Seq<u8>) -> Seq<u8>
    decreases s.len(),
{
    if s.len() > 0 && is_blank(s[0]) {
        trim_start(s.drop_first())
    } else {
        s
    }
}

/// `s` without the blanks at its end.
pub open spec fn trim_end(s: Seq<u8>) -> Seq<u8>
    decreases s.len(),
{
    if s.len() > 0 && is_blank(s.last()) {
        trim_end(s.drop_last())
    } else {
        s
    }
}

/// `s` without the blanks at its start and at its end.
pub open spec fn trim(s: Seq<u8>) -> Seq<u8> {
    trim_end(trim_start(s))
}

/// `s` is one decimal digit or more.
pub open spec fn is_digits(s: Seq<u8>) -> bool {
    s.len() > 0 && forall|i: int| 0 <= i < s.len() ==> 48 <= #[trigger] s[i] <= 57
}

/// The number that the decimal digits `s` write.
pub open spec fn digits_value(s: Seq<u8>) -> nat
    decreases s.len(),
{
    if s.len() == 0 {
        0
    } else {
        digits_value(s.drop_last()) * 10 + (s.last() - 48) as nat
    }
}

/// The number that `s` writes: decimal digits, after a plus sign or
/// without one, of a value that a `usize` holds.
pub open spec fn number(s: Seq<u8>) -> Option<usize> {
    let digits = if s.len() > 0 && s[0] == 43 {
        s.drop_first()
    } else {
        s
    };
    if is_digits(digits) && digits_value(digits) <= usize::MAX {
        Some(digits_value(digits) as usize)
    } else {
        None
    }
}

/// Digits that begin a longer run of digits write no larger number.
pub proof fn lemma_digits_grow(s: Seq<u8>, k: int)
    requires
        is_digits(s),
        0 <= k <= s.len(),
    ensures
        digits_value(s.take(k)) <= digits_value(s),
    decreases s.len() - k,
{
    if k < s.len() {
        lemma_digits_grow(s, k + 1);
        assert(s.take(k + 1).drop_last() =~= s.take(k));
    } else {
        assert(s.take(k) =~= s);
    }
}

/// Tells whether `b` is a blank.
pub fn blank(b: u8) -> (r: bool)
    ensures
        r == is_blank(b),
{
    b == 32 || (9 <= b && b <= 13)
}

/// Reads the number that `s` writes between the blanks at its two ends.
pub fn read_number(s: &[u8]) -> (r: Option<usize>)
    ensures
        r == number(trim(s@)),
{
    let mut lo: usize = 0;
    assert(s@.subrange(0, s@.len() as int) =~= s@);
    while lo < s.len() && blank(s[lo])
        invariant
            lo <= s.len(),
            trim_start(s@) == trim_start(s@.subrange(lo as int, s@.len() as int)),
        decreases s.len() - lo,
    {
        proof {
            let rest = s@.subrange(lo as int, s@.len() as int);
            assert(rest.drop_first() =~= s@.subrange(lo + 1, s@.len() as int));
        }
        lo += 1;
    }
    let mut hi: usize = s.len();
    proof {
        let rest = s@.subrange(lo as int, s@.len() as int);
        assert(trim_start(rest) == rest);
    }
    while hi > lo && blank(s[hi - 1])
        invariant
            lo <= hi <= s.len(),
            trim(s@) == trim_end(s@.subrange(lo as int, hi as int)),
        decreases hi - lo,
    {
        proof {
            let rest = s@.subrange(lo as int, hi as int);
            assert(rest.drop_last() =~= s@.subrange(lo as int, hi - 1));
        }
        hi -= 1;
    }
    let ghost body = s@.subrange(lo as int, hi as int);
    assert(trim(s@) == body);
    let mut start: usize = lo;
    if start < hi && s[start] == 43 {
        start += 1;
    }
    let ghost digits = s@.subrange(start as int, hi as int);
    proof {
        if start > lo {
            assert(body.drop_first() =~= digits);
        } else {
            assert(body =~= digits);
        }
    }
    if start == hi {
        return None;
    }
    assert(number(trim(s@)) == if is_digits(digits) && digits_value(digits) <= usize::MAX {
        Some(digits_value(digits) as usize)
    } else {
        None
    });
    let mut value: usize = 0;
    let mut k: usize = start;
    while k < hi
        invariant
            start <= k <= hi <= s.len(),
            digits == s@.subrange(start as int, hi as int),
            number(trim(s@)) == if is_digits(digits) && digits_value(digits) <= usize::MAX {
                Some(digits_value(digits) as usize)
            } else {
                None
            },
            value == digits_value(digits.take(k - start)),
            forall|i: int| 0 <= i < k - start ==> 48 <= #[trigger] digits[i] <= 57,
        decreases hi - k,
    {
        let b = s[k];
        if b < 48 || b > 57 {
            proof {
                assert(digits[k - start] == b);
                assert(!is_digits(digits));
            }
            return None;
        }
        let d = (b - 48) as usize;
        proof {
            assert(digits.take(k + 1 - start).drop_last() =~= digits.take(k - start));
            assert(digits.take(k + 1 - start).last() == b);
        }
        if value > (usize::MAX - d) / 10 {
            proof {
                assert(digits_value(digits.take(k + 1 - start)) == value * 10 + d);
                if is_digits(digits) {
                    lemma_digits_grow(digits, k + 1 - start);
                }
            }
            return None;
        }
        value = value * 10 + d;
        k += 1;
    }
    proof {
        assert(digits.take(k - start) =~= digits);
    }
    Some(value)
}

/// The decimal digits of `n`.
pub open spec fn decimal(n: nat) -> Seq<u8>
    decreases n,
{
    if n < 10 {
        seq![(48 + n) as u8]
    } else {
        decimal(n / 10).push((48 + n % 10) as u8)
    }
}

/// Appends the decimal digits of `n` to `out`.
pub fn write_number(out: &mut Vec<u8>, n: usize)
    ensures
        final(out)@ == old(out)@ + decimal(n as nat),
    decreases n,
{
    if n >= 10 {
        write_number(out, n / 10);
    }
    let d: u8 = (n % 10) as u8;
    out.push(48 + d);
    proof {
        if n >= 10 {
            assert(out@ =~= old(out)@ + decimal(n as nat));
        } else {
            assert(out@ =~= old(out)@ + decimal(n as nat));
        }
    }
}

/// The digits written for a number are read back as that number.
pub proof fn lemma_decimal_read_back(n: usize)
    ensures
        is_digits(decimal(n as nat)),
        digits_value(decimal(n as nat)) == n,
        number(decimal(n as nat)) == Some(n),
    decreases n,
{
    let s = decimal(n as nat);
    if n >= 10 {
        lemma_decimal_read_back(n / 10);
        let head = decimal((n / 10) as nat);
        assert(s.drop_last() =~= head);
        assert forall|i: int| 0 <= i < s.len() implies 48 <= #[trigger] s[i] <= 57 by {
            if i < head.len() {
                assert(s[i] == head[i]);
            }
        }
        assert(s[0] == head[0]);
        assert(s.last() == (48 + n % 10) as u8);
        assert(digits_value(s) == digits_value(head) * 10 + (n % 10));
    } else {
        assert(s.drop_last() =~= Seq::<u8>::empty());
        assert(digits_value(s.drop_last()) == 0);
        assert(s.last() == (48 + n) as u8);
    }
}

} // verus!
