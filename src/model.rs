//! The mathematical model: which characters match, and the unit-cost edit
//! distance between prefixes of two sequences.
use vstd::prelude::*;
use crate::kernel::min3;

verus! {

/// The rank of a base of `a` in the scatter alphabet `A, C, T, G`.
pub open spec fn base_code(c: u8) -> int {
    if c == 65 || c == 97 {
        0
    } else if c == 67 || c == 99 {
        1
    } else if c == 84 || c == 116 {
        2
    } else if c == 71 || c == 103 {
        3
    } else {
        -1
    }
}

/// `c` is one of `A, C, G, T` in either case.
pub open spec fn is_base(c: u8) -> bool {
    base_code(c) >= 0
}

/// `c` may stand in `b`: a base, or one of the ambiguity codes `N`, `*`,
/// `Y` (C or T) and `R` (A or G).
pub open spec fn is_b_char(c: u8) -> bool {
    is_base(c) || c == 78 || c == 110 || c == 42 || c == 89 || c == 121 || c == 82 || c == 114
}

/// The character `cb` of `b` is compatible with the base of scatter rank `x`.
pub open spec fn covers(cb: u8, x: int) -> bool {
    if is_base(cb) {
        base_code(cb) == x
    } else if cb == 78 || cb == 110 || cb == 42 {
        0 <= x < 4
    } else if cb == 89 || cb == 121 {
        x == 1 || x == 2
    } else if cb == 82 || cb == 114 {
        x == 0 || x == 3
    } else {
        false
    }
}

/// A character of `a` and one of `b` match.
pub open spec fn compatible(ca: u8, cb: u8) -> bool {
    covers(cb, base_code(ca))
}

pub open spec fn valid_a(a: Seq<u8>) -> bool {
    forall|i: int| 0 <= i < a.len() ==> is_base(#[trigger] a[i])
}

pub open spec fn valid_b(b: Seq<u8>) -> bool {
    forall|j: int| 0 <= j < b.len() ==> is_b_char(#[trigger] b[j])
}

/// Cost of aligning `a[i]` against `b[j]`.
pub open spec fn sub_cost(a: Seq<u8>, b: Seq<u8>, i: int, j: int) -> int {
    if compatible(a[i], b[j]) {
        0
    } else {
        1
    }
}

/// The unit-cost edit distance between `a[..i]` and `b[..j]`.
pub open spec fn dist(a: Seq<u8>, b: Seq<u8>, i: nat, j: nat) -> int
    decreases i + j,
{
    if i == 0 {
        j as int
    } else if j == 0 {
        i as int
    } else {
        min3(
            dist(a, b, (i - 1) as nat, (j - 1) as nat) + sub_cost(a, b, i - 1, j - 1),
            dist(a, b, (i - 1) as nat, j) + 1,
            dist(a, b, i, (j - 1) as nat) + 1,
        )
    }
}

/// The edit distance between `a` and `b`.
pub open spec fn edit_distance(a: Seq<u8>, b: Seq<u8>) -> int {
    dist(a, b, a.len(), b.len())
}

} // verus!
