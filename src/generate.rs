//! Edits that turn one sequence into another, as used to make test pairs.
use vstd::prelude::*;

verus! {

/// How errors are spread over a generated pair.
#[derive(Debug, Clone, Copy, PartialEq, Eq, Structural)]
pub enum ErrorModel {
    Uniform,
    /// A single gap (insertion or deletion) of size `e * n`.
    Gap,
    /// A region of size `e * n` deleted and inserted elsewhere.
    Move,
    /// A region of size `e * n` inserted again next to itself.
    Insert,
    /// Noise of `e / 2` and an insertion of `e / 2`.
    NoisyInsert,
    /// Noise of `e / 2` and a deletion of `e / 2`.
    NoisyDelete,
    /// A region of size `e * n / 2` inserted twice next to itself.
    Doubleinsert,
    /// Repeats of a pattern for `a`, with `e * n` mutations for `b`.
    Repeat,
    /// Repeats of a pattern with `e * n` mutations for `a`, and `e * n` more
    /// for `b`.
    MutatedRepeat,
    /// Repeats of a pattern with `e * n / 2` mutations each for `a` and `b`.
    DoubleMutatedRepeat,
}

impl Default for ErrorModel {
    fn default() -> (r: Self)
        ensures
            r == ErrorModel::Uniform,
    {
        ErrorModel::Uniform
    }
}

/// One edit of a sequence.
#[derive(Debug, Clone, Copy, PartialEq, Eq, Structural)]
pub enum Mutation {
    /// Replace the character at a position.
    Substitution(usize, u8),
    /// Insert a character before a position.
    Insertion(usize, u8),
    /// Delete the character at a position.
    Deletion(usize),
}

/// The mutation fits a sequence of length `len`.
pub open spec fn fits_len(m: Mutation, len: nat) -> bool {
    match m {
        Mutation::Substitution(i, _) => i < len,
        Mutation::Insertion(i, _) => i <= len,
        Mutation::Deletion(i) => i < len,
    }
}

/// The sequence that `m` makes of `s`.
pub open spec fn mutated(s: Seq<u8>, m: Mutation) -> Seq<u8> {
    match m {
        Mutation::Substitution(i, c) => s.update(i as int, c),
        Mutation::Insertion(i, c) => s.insert(i as int, c),
        Mutation::Deletion(i) => s.remove(i as int),
    }
}

/// The base of rank `r` in the alphabet `A, C, G, T`.
pub fn base_of_rank(r: usize) -> (c: u8)
    requires
        r < 4,
    ensures
        c == seq![65u8, 67u8, 71u8, 84u8][r as int],
{
    if r == 0 {
        65
    } else if r == 1 {
        67
    } else if r == 2 {
        71
    } else {
        84
    }
}

/// Applies `m` to `b`.
pub fn make_mutation(b: &mut Vec<u8>, m: Mutation)
    requires
        fits_len(m, old(b)@.len()),
    ensures
        final(b)@ == mutated(old(b)@, m),
{
    match m {
        Mutation::Substitution(i, c) => {
            b.set(i, c);
        },
        Mutation::Insertion(i, c) => {
            b.insert(i, c);
        },
        Mutation::Deletion(i) => {
            b.remove(i);
        },
    }
}

} // verus!
