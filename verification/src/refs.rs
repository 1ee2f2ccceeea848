//! Borrowing exercises: handing out mutable references into a pair or
//! a vector, and splitting a slice into four near-equal parts.

use vstd::prelude::*;

verus! {

/// A mutable reference to one element of the pair, picked by the flag:
/// the second element when set, the first otherwise.
pub fn f1<'a>(pair: &'a mut (u32, u32), flag: bool) -> (r: &'a mut u32)
    ensures
        *r == (if flag {
            old(pair).1
        } else {
            old(pair).0
        }),
        flag ==> *final(pair) == (old(pair).0, *final(r)),
        !flag ==> *final(pair) == (*final(r), old(pair).1),
{
    match flag {
        true => &mut pair.1,
        false => &mut pair.0,
    }
}

/// A mutable reference to the `n`-th element.
pub fn f2<'a>(values: &'a mut Vec<u32>, n: usize) -> (r: &'a mut u32)
    requires
        n < old(values).len(),
    ensures
        *r == old(values)@[n as int],
        final(values)@ == old(values)@.update(n as int, *final(r)),
{
    &mut values[n]
}

/// A mutable reference to the `n`-th element counted from the end.
pub fn f3<'a>(values: &'a mut Vec<u32>, n: usize) -> (r: &'a mut u32)
    requires
        n < old(values).len(),
    ensures
        *r == old(values)@[old(values).len() - n - 1],
        final(values)@ == old(values)@.update(old(values).len() - n - 1, *final(r)),
{
    let len = values.len();
    &mut values[len - n - 1]
}

/// Splits a slice into four parts whose lengths differ by at most one,
/// the longer parts first; the parts concatenate back to the slice.
pub fn f4<'a>(values: &'a [u32]) -> (r: (&'a [u32], &'a [u32], &'a [u32], &'a [u32]))
    ensures
        r.0@ + r.1@ + r.2@ + r.3@ == values@,
        r.0@.len() == values@.len() / 4 + (if values@.len() % 4 > 0 {
            1int
        } else {
            0
        }),
        r.1@.len() == values@.len() / 4 + (if values@.len() % 4 > 1 {
            1int
        } else {
            0
        }),
        r.2@.len() == values@.len() / 4 + (if values@.len() % 4 > 2 {
            1int
        } else {
            0
        }),
        r.3@.len() == values@.len() / 4,
{
    let len = values.len();
    let quarter = len / 4;
    let extra = len - quarter * 4;
    proof {
        vstd::arithmetic::div_mod::lemma_fundamental_div_mod(len as int, 4);
        assert(extra == len as int % 4);
    }
    let (a, bcd) = values.split_at(quarter + if extra > 0 {
        1
    } else {
        0
    });
    let (b, cd) = bcd.split_at(quarter + if extra > 1 {
        1
    } else {
        0
    });
    let (c, d) = cd.split_at(quarter + if extra > 2 {
        1
    } else {
        0
    });
    proof {
        assert(a@ + b@ + c@ + d@ =~= values@);
    }
    (a, b, c, d)
}

} // verus!
