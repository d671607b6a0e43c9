//! The frontier: a min-priority structure over `(key, tie-break)` entries,
//! held in a `binary_heap_plus` binary heap. The heap itself is outside code;
//! the small wrappers here carry its contract, stated over the uninterpreted
//! contents `frontier_entries`.

use vstd::multiset::Multiset;
use vstd::prelude::*;

verus! {

#[verifier::external_type_specification]
#[verifier::external_body]
#[verifier::reject_recursive_types(T)]
#[verifier::reject_recursive_types(C)]
pub struct ExBinaryHeap<T, C>(binary_heap_plus::BinaryHeap<T, C>);

#[verifier::external_type_specification]
#[verifier::external_body]
pub struct ExMinComparator(binary_heap_plus::MinComparator);

/// The live set of pending entries of a merge: at most one `(key, tie-break)`
/// pair per still-unexhausted source, yielding its least pair on demand.
pub struct Frontier {
    heap: binary_heap_plus::BinaryHeap<(u64, usize), binary_heap_plus::MinComparator>,
}

/// What the heap inside a frontier holds, as a multiset of entries.
pub uninterp spec fn frontier_entries(f: Frontier) -> Multiset<(u64, usize)>;

/// `a` comes no later than `b` in the lexicographic order on pairs, which is
/// the `Ord` order std documents for tuples.
pub open spec fn lex_le(a: (u64, usize), b: (u64, usize)) -> bool {
    a.0 < b.0 || (a.0 == b.0 && a.1 <= b.1)
}

impl View for Frontier {
    type V = Multiset<(u64, usize)>;

    open spec fn view(&self) -> Multiset<(u64, usize)> {
        frontier_entries(*self)
    }
}

impl Frontier {
    /// Relies on `binary_heap_plus::BinaryHeap::new_min`: an empty heap.
    #[verifier::external_body]
    pub(crate) fn empty() -> (f: Frontier)
        ensures
            frontier_entries(f) == Multiset::<(u64, usize)>::empty(),
    {
        Frontier { heap: binary_heap_plus::BinaryHeap::new_min() }
    }

    /// Relies on `binary_heap_plus::BinaryHeap::len`: the number of entries
    /// the heap holds.
    #[verifier::external_body]
    pub(crate) fn len(&self) -> (n: usize)
        ensures
            n == frontier_entries(*self).len(),
    {
        self.heap.len()
    }

    /// Relies on `binary_heap_plus::BinaryHeap::push`: adds the entry to the
    /// heap and changes nothing else.
    #[verifier::external_body]
    pub(crate) fn push(&mut self, key: u64, tie: usize)
        ensures
            frontier_entries(*final(self)) == frontier_entries(*old(self)).insert((key, tie)),
    {
        self.heap.push((key, tie));
    }

    /// Relies on `binary_heap_plus::BinaryHeap::pop` under `MinComparator`,
    /// which reverses each comparison of the max-heap: the entry removed and
    /// returned is a least one in the lexicographic order on `(u64, usize)`,
    /// the `Ord` order of tuples.
    #[verifier::external_body]
    pub(crate) fn pop_min(&mut self) -> (e: (u64, usize))
        requires
            frontier_entries(*old(self)).len() > 0,
        ensures
            frontier_entries(*old(self)).count(e) > 0,
            frontier_entries(*final(self)) == frontier_entries(*old(self)).remove(e),
            forall|x: (u64, usize)| frontier_entries(*old(self)).count(x) > 0 ==> lex_le(e, x),
    {
        self.heap.pop().unwrap()
    }
}

} // verus!
