//! The comparison model: the direction a merge runs in, the induced order on
//! values, and the heap keys that realize that order on the natural order of
//! `u64` and `usize`.

use vstd::prelude::*;

verus! {

/// The total order an engine merges under: the natural ascending order of
/// `u64`, or its reverse.
#[derive(Clone, Copy, PartialEq, Eq, Structural, Debug)]
pub enum Direction {
    Ascending,
    Descending,
}

/// `a` comes strictly before `b` under `dir`.
pub open spec fn value_lt(dir: Direction, a: u64, b: u64) -> bool {
    match dir {
        Direction::Ascending => a < b,
        Direction::Descending => b < a,
    }
}

/// The sequence is strictly increasing under `dir`: sorted and free of
/// duplicates.
pub open spec fn sorted(dir: Direction, s: Seq<u64>) -> bool {
    forall|i: int, j: int| 0 <= i < j < s.len() ==> value_lt(dir, s[i], s[j])
}

/// The heap key standing for value `v`: the natural order of keys agrees with
/// the order of values under `dir`. The map is an involution, so it also
/// recovers the value from a key.
pub open spec fn key_of(dir: Direction, v: u64) -> u64 {
    match dir {
        Direction::Ascending => v,
        Direction::Descending => (u64::MAX - v) as u64,
    }
}

/// The heap tie-break key standing for source index `i`, so that sources whose
/// values tie are drained in a fixed, direction-dependent index order. Also an
/// involution.
pub open spec fn ikey_of(dir: Direction, i: usize) -> usize {
    match dir {
        Direction::Ascending => i,
        Direction::Descending => (usize::MAX - i) as usize,
    }
}

/// `key_of` embeds the order `dir` on values into the natural order on keys,
/// and applying it twice gives the value back.
pub proof fn lemma_key_of(dir: Direction, a: u64, b: u64)
    ensures
        value_lt(dir, a, b) <==> key_of(dir, a) < key_of(dir, b),
        key_of(dir, key_of(dir, a)) == a,
{
}

/// `ikey_of` is injective, and applying it twice gives the index back.
pub proof fn lemma_ikey_of(dir: Direction, i: usize, j: usize)
    ensures
        ikey_of(dir, i) == ikey_of(dir, j) ==> i == j,
        ikey_of(dir, ikey_of(dir, i)) == i,
{
}

/// Computes `key_of(dir, v)`; by the involution it also recovers the value
/// whose key is `v`.
pub fn key_for(dir: Direction, v: u64) -> (k: u64)
    ensures
        k == key_of(dir, v),
{
    match dir {
        Direction::Ascending => v,
        Direction::Descending => u64::MAX - v,
    }
}

/// Computes `ikey_of(dir, i)`; by the involution it also recovers the index
/// whose tie-break key is `i`.
pub fn ikey_for(dir: Direction, i: usize) -> (k: usize)
    ensures
        k == ikey_of(dir, i),
{
    match dir {
        Direction::Ascending => i,
        Direction::Descending => usize::MAX - i,
    }
}

} // verus!
