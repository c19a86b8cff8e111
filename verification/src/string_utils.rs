//! The part of the similarity of two paths that is counted in whole numbers.
//!
//! A guess is scored by a string similarity; each position at which the two
//! paths have the same letter in different case then costs a fixed penalty.
//! The positions are counted here.

use vstd::prelude::*;
use crate::chars::chars_of;

verus! {

/// The code of a character, of its lowercase form if it is an ASCII capital.
pub open spec fn ascii_folded(c: char) -> u32 {
    if 'A' <= c && c <= 'Z' {
        (c as u32 + 32) as u32
    } else {
        c as u32
    }
}

/// The two characters differ, but only in the case of an ASCII letter.
pub open spec fn case_slip(a: char, b: char) -> bool {
    a != b && ascii_folded(a) == ascii_folded(b)
}

/// The number of positions below `upto` at which both texts have a
/// character and the two differ only in case.
pub open spec fn case_slips(a: Seq<char>, b: Seq<char>, upto: int) -> nat
    decreases upto,
{
    if upto <= 0 {
        0
    } else {
        case_slips(a, b, upto - 1) + if upto <= a.len() && upto <= b.len() && case_slip(
            a[upto - 1],
            b[upto - 1],
        ) {
            1nat
        } else {
            0nat
        }
    }
}

/// The length of the shorter text.
pub open spec fn common_len(a: Seq<char>, b: Seq<char>) -> int {
    if a.len() <= b.len() {
        a.len() as int
    } else {
        b.len() as int
    }
}

fn folded(c: char) -> (r: u32)
    ensures
        r == ascii_folded(c),
{
    if 'A' <= c && c <= 'Z' {
        c as u32 + 32
    } else {
        c as u32
    }
}

/// Counts the positions at which two texts have the same letter in
/// different case.
pub fn case_mismatches(a: &str, b: &str) -> (n: usize)
    ensures
        n == case_slips(a@, b@, common_len(a@, b@)),
{
    let xs = chars_of(a);
    let ys = chars_of(b);
    let len: usize = if xs.len() <= ys.len() {
        xs.len()
    } else {
        ys.len()
    };
    let mut n: usize = 0;
    let mut i: usize = 0;
    while i < len
        invariant
            i <= len,
            len <= xs@.len(),
            len <= ys@.len(),
            xs@ == a@,
            ys@ == b@,
            n <= i,
            n == case_slips(a@, b@, i as int),
        decreases len - i,
    {
        if xs[i] != ys[i] && folded(xs[i]) == folded(ys[i]) {
            n += 1;
        }
        i += 1;
    }
    n
}

} // verus!
