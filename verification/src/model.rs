//! The mathematical model of a merge: what one production step does to the
//! sources, and what the whole output is. The engines' contracts are stated
//! over these functions, and the laws at the bottom relate whole outputs.

use crate::order::{sorted, value_lt, Direction};
use vstd::prelude::*;

verus! {

/// Source `i` holds `v` as its next value.
pub open spec fn tied(seqs: Seq<Seq<u64>>, v: u64, i: int) -> bool {
    0 <= i < seqs.len() && seqs[i].len() > 0 && seqs[i][0] == v
}

/// `v` is the next value of some source, and no source holds an earlier one
/// under `dir`.
pub open spec fn least_head(dir: Direction, seqs: Seq<Seq<u64>>, v: u64) -> bool {
    &&& exists|i: int| tied(seqs, v, i)
    &&& forall|i: int|
        0 <= i < seqs.len() && seqs[i].len() > 0 ==> !value_lt(dir, seqs[i][0], v)
}

/// The sources after one step that emits `v`: every source whose next value
/// is `v` loses it, the others stand.
pub open spec fn after_step(seqs: Seq<Seq<u64>>, v: u64) -> Seq<Seq<u64>> {
    Seq::new(
        seqs.len(),
        |i: int|
            if seqs[i].len() > 0 && seqs[i][0] == v {
                seqs[i].drop_first()
            } else {
                seqs[i]
            },
    )
}

/// No source has anything left.
pub open spec fn all_drained(seqs: Seq<Seq<u64>>) -> bool {
    forall|i: int| 0 <= i < seqs.len() ==> #[trigger] seqs[i].len() == 0
}

/// Every value some source holds: the union the merge emits.
pub open spec fn value_set(seqs: Seq<Seq<u64>>) -> Set<u64> {
    Set::new(|v: u64| exists|i: int| 0 <= i < seqs.len() && #[trigger] seqs[i].contains(v))
}

/// How many values are left in all sources together.
pub open spec fn total_len(seqs: Seq<Seq<u64>>) -> nat
    decreases seqs.len(),
{
    if seqs.len() == 0 {
        0
    } else {
        seqs.first().len() + total_len(seqs.drop_first())
    }
}

/// The values of the group's entries whose source index is `i`, in order.
pub open spec fn group_filter(g: Seq<(usize, u64)>, i: usize) -> Seq<u64>
    decreases g.len(),
{
    if g.len() == 0 {
        Seq::empty()
    } else {
        let rest = group_filter(g.drop_last(), i);
        if g.last().0 == i {
            rest + seq![g.last().1]
        } else {
            rest
        }
    }
}

/// Flattens the groups and keeps, in emission order, the values that source
/// `i` contributed.
pub open spec fn contributions(groups: Seq<Seq<(usize, u64)>>, i: usize) -> Seq<u64>
    decreases groups.len(),
{
    if groups.len() == 0 {
        Seq::empty()
    } else {
        contributions(groups.drop_last(), i) + group_filter(groups.last(), i)
    }
}

/// The sources among the first `n` whose next value is `v`, in ascending
/// index order.
pub open spec fn tied_order_up(seqs: Seq<Seq<u64>>, v: u64, n: int) -> Seq<usize>
    decreases n,
{
    if n <= 0 {
        Seq::empty()
    } else if tied(seqs, v, n - 1) {
        tied_order_up(seqs, v, n - 1) + seq![(n - 1) as usize]
    } else {
        tied_order_up(seqs, v, n - 1)
    }
}

/// The order in which the frontier drains the sources tied at `v`: by
/// tie-break key, so ascending source index under `Ascending` and descending
/// under `Descending`. The first entry is the selected source.
pub open spec fn drain_order(dir: Direction, seqs: Seq<Seq<u64>>, v: u64) -> Seq<usize> {
    match dir {
        Direction::Ascending => tied_order_up(seqs, v, seqs.len() as int),
        Direction::Descending => tied_order_up(seqs, v, seqs.len() as int).reverse(),
    }
}

/// The sources among the first `n` that hold `v` anywhere, in ascending
/// index order.
pub open spec fn holder_order_up(seqs: Seq<Seq<u64>>, v: u64, n: int) -> Seq<usize>
    decreases n,
{
    if n <= 0 {
        Seq::empty()
    } else if 0 <= n - 1 < seqs.len() && seqs[n - 1].contains(v) {
        holder_order_up(seqs, v, n - 1) + seq![(n - 1) as usize]
    } else {
        holder_order_up(seqs, v, n - 1)
    }
}

/// The sources that hold `v`, in the direction's drain order.
pub open spec fn holder_order(dir: Direction, seqs: Seq<Seq<u64>>, v: u64) -> Seq<usize> {
    match dir {
        Direction::Ascending => holder_order_up(seqs, v, seqs.len() as int),
        Direction::Descending => holder_order_up(seqs, v, seqs.len() as int).reverse(),
    }
}

/// The group emitted for `v` from the given drain order: every source's pair
/// in that order, except that the first-drained (selected) source's pair is
/// moved to the end.
pub open spec fn group_layout(order: Seq<usize>, v: u64) -> Seq<(usize, u64)> {
    (order.drop_first() + order.take(1)).map_values(|i: usize| (i, v))
}

/// An index-ascending listing of exactly the tied sources is the one the
/// enumeration gives.
proof fn lemma_tied_up_unique(seqs: Seq<Seq<u64>>, v: u64, n: int, s: Seq<usize>)
    requires
        0 <= n <= usize::MAX,
        forall|a: int, b: int| 0 <= a < b < s.len() ==> s[a] < s[b],
        forall|k: int| 0 <= k < s.len() ==> (s[k] as int) < n && tied(seqs, v, s[k] as int),
        forall|j: int| 0 <= j < n && tied(seqs, v, j) ==> s.contains((j as usize)),
    ensures
        s == tied_order_up(seqs, v, n),
    decreases n,
{
    if n <= 0 {
        if s.len() > 0 {
            assert((s[0] as int) < n);
            assert(false);
        }
        assert(s =~= tied_order_up(seqs, v, n));
    } else if tied(seqs, v, n - 1) {
        assert(s.contains(((n - 1) as usize)));
        let k = choose|k: int| 0 <= k < s.len() && s[k] == ((n - 1) as usize);
        if k < s.len() - 1 {
            assert(s[k] < s[s.len() - 1]);
            assert((s[s.len() - 1] as int) < n);
            assert(false);
        }
        let t = s.drop_last();
        assert forall|j: int| 0 <= j < n - 1 && tied(seqs, v, j) implies t.contains(
            (j as usize),
        ) by {
            assert(s.contains((j as usize)));
            let k2 = choose|k2: int| 0 <= k2 < s.len() && s[k2] == (j as usize);
            if k2 == s.len() - 1 {
                assert(false);
            }
            assert(t[k2] == (j as usize));
        }
        assert forall|k2: int| 0 <= k2 < t.len() implies (t[k2] as int) < n - 1 && tied(
            seqs,
            v,
            t[k2] as int,
        ) by {
            assert(t[k2] == s[k2]);
            assert(s[k2] < s[s.len() - 1]);
        }
        lemma_tied_up_unique(seqs, v, n - 1, t);
        assert(s =~= t + seq![(n - 1) as usize]);
    } else {
        assert forall|k: int| 0 <= k < s.len() implies (s[k] as int) < n - 1 by {
            if (s[k] as int) == n - 1 {
                assert(tied(seqs, v, n - 1));
                assert(false);
            }
        }
        lemma_tied_up_unique(seqs, v, n - 1, s);
    }
}

/// A listing of exactly the tied sources, strictly increasing in tie-break
/// key, is the drain order.
pub proof fn lemma_drain_order_unique(
    dir: Direction,
    seqs: Seq<Seq<u64>>,
    v: u64,
    s: Seq<usize>,
)
    requires
        seqs.len() <= usize::MAX,
        forall|a: int, b: int|
            0 <= a < b < s.len() ==> crate::order::ikey_of(dir, s[a]) < crate::order::ikey_of(
                dir,
                s[b],
            ),
        forall|k: int| 0 <= k < s.len() ==> (s[k] as int) < seqs.len() && tied(seqs, v, s[k] as int),
        forall|j: int| 0 <= j < seqs.len() && tied(seqs, v, j) ==> s.contains((j as usize)),
    ensures
        s == drain_order(dir, seqs, v),
{
    match dir {
        Direction::Ascending => {
            lemma_tied_up_unique(seqs, v, seqs.len() as int, s);
        },
        Direction::Descending => {
            let r = s.reverse();
            assert forall|a: int, b: int| 0 <= a < b < r.len() implies r[a] < r[b] by {
                assert(r[a] == s[s.len() - a - 1]);
                assert(r[b] == s[s.len() - b - 1]);
                assert(crate::order::ikey_of(dir, s[s.len() - b - 1]) < crate::order::ikey_of(
                    dir,
                    s[s.len() - a - 1],
                ));
            }
            assert forall|j: int| 0 <= j < seqs.len() && tied(seqs, v, j) implies r.contains(
                (j as usize),
            ) by {
                assert(s.contains((j as usize)));
                let k = choose|k: int| 0 <= k < s.len() && s[k] == (j as usize);
                assert(r[s.len() - k - 1] == (j as usize));
            }
            assert forall|k: int| 0 <= k < r.len() implies (r[k] as int) < seqs.len() && tied(
                seqs,
                v,
                r[k] as int,
            ) by {
                assert(r[k] == s[s.len() - k - 1]);
            }
            lemma_tied_up_unique(seqs, v, seqs.len() as int, r);
            assert(s =~= r.reverse());
        },
    }
}

/// When a source is tied exactly when it holds the value, the drain order of
/// the current sources is the holder order of the full ones.
pub proof fn lemma_drain_is_holder_order(
    dir: Direction,
    cur: Seq<Seq<u64>>,
    orig: Seq<Seq<u64>>,
    v: u64,
)
    requires
        cur.len() == orig.len(),
        forall|i: int| 0 <= i < cur.len() ==> tied(cur, v, i) == orig[i].contains(v),
    ensures
        drain_order(dir, cur, v) == holder_order(dir, orig, v),
{
    lemma_tied_up_is_holder_up(cur, orig, v, cur.len() as int);
}

proof fn lemma_tied_up_is_holder_up(cur: Seq<Seq<u64>>, orig: Seq<Seq<u64>>, v: u64, n: int)
    requires
        cur.len() == orig.len(),
        n <= cur.len(),
        forall|i: int| 0 <= i < cur.len() ==> tied(cur, v, i) == orig[i].contains(v),
    ensures
        tied_order_up(cur, v, n) == holder_order_up(orig, v, n),
    decreases n,
{
    if n > 0 {
        lemma_tied_up_is_holder_up(cur, orig, v, n - 1);
    }
}

/// The value each group was emitted for, in emission order. Every entry of a
/// group carries that value, and the selected source's entry stands last.
pub open spec fn group_values(groups: Seq<Seq<(usize, u64)>>) -> Seq<u64> {
    groups.map_values(|g: Seq<(usize, u64)>| g.last().1)
}

/// A value is in a concatenation exactly when it is in one of the parts.
pub proof fn lemma_concat_contains(a: Seq<u64>, b: Seq<u64>, w: u64)
    ensures
        (a + b).contains(w) <==> a.contains(w) || b.contains(w),
{
    if a.contains(w) {
        let k = choose|k: int| 0 <= k < a.len() && a[k] == w;
        assert((a + b)[k] == w);
    }
    if b.contains(w) {
        let k = choose|k: int| 0 <= k < b.len() && b[k] == w;
        assert((a + b)[a.len() + k] == w);
    }
    if (a + b).contains(w) {
        let k = choose|k: int| 0 <= k < (a + b).len() && (a + b)[k] == w;
        if k < a.len() {
            assert(a[k] == w);
        } else {
            assert(b[k - a.len()] == w);
        }
    }
}

/// A strictly sorted sequence stays strictly sorted when its head goes.
pub proof fn lemma_sorted_drop_first(dir: Direction, s: Seq<u64>)
    requires
        sorted(dir, s),
        s.len() > 0,
    ensures
        sorted(dir, s.drop_first()),
{
    let t = s.drop_first();
    assert forall|a: int, b: int| 0 <= a < b < t.len() implies value_lt(dir, t[a], t[b]) by {
        assert(value_lt(dir, s[a + 1], s[b + 1]));
    }
}

/// Draining one value from one source strictly shrinks the whole.
pub proof fn lemma_total_len_drop(seqs: Seq<Seq<u64>>, j: int)
    requires
        0 <= j < seqs.len(),
        seqs[j].len() > 0,
    ensures
        total_len(seqs.update(j, seqs[j].drop_first())) < total_len(seqs),
    decreases seqs.len(),
{
    let q = seqs.update(j, seqs[j].drop_first());
    if j == 0 {
        assert(q.drop_first() =~= seqs.drop_first());
    } else {
        assert(q.first() == seqs.first());
        assert(q.drop_first() =~= seqs.drop_first().update(
            j - 1,
            seqs.drop_first()[j - 1].drop_first(),
        ));
        lemma_total_len_drop(seqs.drop_first(), j - 1);
    }
}

/// Each source can only shrink in a step.
proof fn lemma_after_step_le(seqs: Seq<Seq<u64>>, v: u64)
    ensures
        total_len(after_step(seqs, v)) <= total_len(seqs),
    decreases seqs.len(),
{
    if seqs.len() > 0 {
        assert(after_step(seqs, v).drop_first() =~= after_step(seqs.drop_first(), v));
        lemma_after_step_le(seqs.drop_first(), v);
    }
}

/// A step that emits a held value strictly shrinks the sources.
pub proof fn lemma_after_step_total(seqs: Seq<Seq<u64>>, v: u64, i: int)
    requires
        tied(seqs, v, i),
    ensures
        total_len(after_step(seqs, v)) < total_len(seqs),
    decreases seqs.len(),
{
    assert(after_step(seqs, v).drop_first() =~= after_step(seqs.drop_first(), v));
    if i == 0 {
        lemma_after_step_le(seqs.drop_first(), v);
    } else {
        assert(tied(seqs.drop_first(), v, i - 1));
        lemma_after_step_total(seqs.drop_first(), v, i - 1);
    }
}

/// What one step leaves behind, when every source is sorted and `v` is the
/// least next value: `v` is gone, nothing else changes, everything left comes
/// after `v`, and the sources stay sorted.
pub proof fn lemma_step_effect(dir: Direction, seqs: Seq<Seq<u64>>, v: u64)
    requires
        forall|i: int| 0 <= i < seqs.len() ==> sorted(dir, #[trigger] seqs[i]),
        least_head(dir, seqs, v),
    ensures
        value_set(seqs).contains(v),
        value_set(after_step(seqs, v)) == value_set(seqs).remove(v),
        forall|w: u64| value_set(after_step(seqs, v)).contains(w) ==> value_lt(dir, v, w),
        forall|i: int|
            0 <= i < seqs.len() ==> sorted(dir, #[trigger] after_step(seqs, v)[i]),
{
    let stepped = after_step(seqs, v);
    let i0 = choose|i: int| tied(seqs, v, i);
    assert(seqs[i0].contains(v));
    assert forall|i: int| 0 <= i < seqs.len() implies sorted(dir, #[trigger] stepped[i]) by {
        assert forall|a: int, b: int| 0 <= a < b < stepped[i].len() implies value_lt(
            dir,
            stepped[i][a],
            stepped[i][b],
        ) by {
            if seqs[i].len() > 0 && seqs[i][0] == v {
                assert(value_lt(dir, seqs[i][a + 1], seqs[i][b + 1]));
            }
        }
    }
    // every value still held comes strictly after v
    assert forall|w: u64| value_set(stepped).contains(w) implies value_lt(dir, v, w) by {
        let i = choose|i: int| 0 <= i < stepped.len() && #[trigger] stepped[i].contains(w);
        let k = choose|k: int| 0 <= k < stepped[i].len() && stepped[i][k] == w;
        if seqs[i].len() > 0 && seqs[i][0] == v {
            // w sits past the dropped head, which was v
            assert(w == seqs[i][k + 1]);
            assert(value_lt(dir, seqs[i][0], seqs[i][k + 1]));
        } else {
            // the head of this source is not v and no earlier than v
            assert(w == seqs[i][k]);
            assert(!value_lt(dir, seqs[i][0], v));
            if seqs[i][0] == v {
                assert(false);
            }
            assert(value_lt(dir, v, seqs[i][0]));
            if k > 0 {
                assert(value_lt(dir, seqs[i][0], seqs[i][k]));
            }
        }
    }
    // the union loses exactly v
    assert forall|w: u64| #[trigger] value_set(seqs).contains(w) && w != v implies value_set(
        stepped,
    ).contains(w) by {
        let i = choose|i: int| 0 <= i < seqs.len() && #[trigger] seqs[i].contains(w);
        let k = choose|k: int| 0 <= k < seqs[i].len() && seqs[i][k] == w;
        if seqs[i].len() > 0 && seqs[i][0] == v {
            assert(k != 0);
            assert(stepped[i][k - 1] == w);
            assert(stepped[i].contains(w));
        } else {
            assert(stepped[i][k] == w);
            assert(stepped[i].contains(w));
        }
    }
    assert forall|w: u64| value_set(stepped).contains(w) implies value_set(seqs).contains(w) && w
        != v by {
        let i = choose|i: int| 0 <= i < stepped.len() && #[trigger] stepped[i].contains(w);
        let k = choose|k: int| 0 <= k < stepped[i].len() && stepped[i][k] == w;
        if seqs[i].len() > 0 && seqs[i][0] == v {
            assert(seqs[i][k + 1] == w);
        } else {
            assert(seqs[i][k] == w);
        }
        assert(seqs[i].contains(w));
        assert(value_lt(dir, v, w));
    }
    assert(value_set(stepped) =~= value_set(seqs).remove(v));
}

/// A sorted sequence is determined by the set of its values: two sequences
/// sorted under the same order with the same values are equal. This is what
/// makes "the sorted deduplicated union" a single sequence.
pub proof fn lemma_sorted_set_unique(dir: Direction, s1: Seq<u64>, s2: Seq<u64>)
    requires
        sorted(dir, s1),
        sorted(dir, s2),
        s1.to_set() == s2.to_set(),
    ensures
        s1 == s2,
    decreases s1.len(),
{
    broadcast use vstd::seq_lib::group_seq_properties;

    if s1.len() == 0 {
        if s2.len() > 0 {
            assert(s2.contains(s2[0]));
            assert(s1.to_set().contains(s2[0]));
            assert(s1.contains(s2[0]));
        }
        assert(s1 =~= s2);
    } else {
        assert(s1.contains(s1[0]));
        assert(s2.to_set().contains(s1[0]));
        assert(s2.contains(s1[0]));
        assert(s2.len() > 0);
        // both heads are the least value of the common set
        let k1 = choose|k: int| 0 <= k < s2.len() && s2[k] == s1[0];
        if k1 > 0 {
            assert(value_lt(dir, s2[0], s1[0]));
            assert(s2.contains(s2[0]));
            assert(s1.to_set().contains(s2[0]));
            assert(s1.contains(s2[0]));
            let k2 = choose|k: int| 0 <= k < s1.len() && s1[k] == s2[0];
            if k2 > 0 {
                assert(value_lt(dir, s1[0], s1[k2]));
            }
            assert(false);
        }
        assert(s1[0] == s2[0]);
        let t1 = s1.drop_first();
        let t2 = s2.drop_first();
        assert forall|a: int, b: int| 0 <= a < b < t1.len() implies value_lt(dir, t1[a], t1[b]) by {
            assert(value_lt(dir, s1[a + 1], s1[b + 1]));
        }
        assert forall|a: int, b: int| 0 <= a < b < t2.len() implies value_lt(dir, t2[a], t2[b]) by {
            assert(value_lt(dir, s2[a + 1], s2[b + 1]));
        }
        lemma_head_gone(dir, s1);
        lemma_head_gone(dir, s2);
        lemma_sorted_set_unique(dir, t1, t2);
        assert(s1.len() == s2.len());
        assert forall|k: int| 0 <= k < s1.len() implies s1[k] == s2[k] by {
            if k > 0 {
                assert(s1[k] == t1[k - 1]);
                assert(s2[k] == t2[k - 1]);
            }
        }
        assert(s1 =~= s2);
    }
}

/// Dropping the head of a strictly sorted sequence removes exactly that value
/// from its set.
proof fn lemma_head_gone(dir: Direction, s: Seq<u64>)
    requires
        sorted(dir, s),
        s.len() > 0,
    ensures
        s.drop_first().to_set() == s.to_set().remove(s[0]),
{
    broadcast use vstd::seq_lib::group_seq_properties;

    let t = s.drop_first();
    assert forall|w: u64| t.to_set().contains(w) implies s.to_set().contains(w) && w != s[0] by {
        let k = choose|k: int| 0 <= k < t.len() && t[k] == w;
        assert(s[k + 1] == w);
        assert(s.contains(w));
        assert(value_lt(dir, s[0], s[k + 1]));
    }
    assert forall|w: u64| s.to_set().contains(w) && w != s[0] implies t.to_set().contains(w) by {
        let k = choose|k: int| 0 <= k < s.len() && s[k] == w;
        assert(k != 0);
        assert(t[k - 1] == w);
        assert(t.contains(w));
    }
    assert(t.to_set() =~= s.to_set().remove(s[0]));
}

/// The order opposite to `dir`.
pub open spec fn opposite(dir: Direction) -> Direction {
    match dir {
        Direction::Ascending => Direction::Descending,
        Direction::Descending => Direction::Ascending,
    }
}

/// Reversing the order reverses the output: two sequences sorted under
/// opposite orders that hold the same values are each other's reverse.
pub proof fn lemma_opposite_outputs(dir: Direction, s1: Seq<u64>, s2: Seq<u64>)
    requires
        sorted(dir, s1),
        sorted(opposite(dir), s2),
        s1.to_set() == s2.to_set(),
    ensures
        s2 == s1.reverse(),
{
    let r = s1.reverse();
    assert forall|a: int, b: int| 0 <= a < b < r.len() implies value_lt(opposite(dir), r[a], r[b]) by {
        assert(r[a] == s1[s1.len() - a - 1]);
        assert(r[b] == s1[s1.len() - b - 1]);
        assert(value_lt(dir, s1[s1.len() - b - 1], s1[s1.len() - a - 1]));
    }
    assert(sorted(opposite(dir), r));
    assert forall|w: u64| r.to_set().contains(w) implies s1.to_set().contains(w) by {
        let k = choose|k: int| 0 <= k < r.len() && r[k] == w;
        assert(s1[s1.len() - k - 1] == w);
        assert(s1.contains(w));
    }
    assert forall|w: u64| s1.to_set().contains(w) implies r.to_set().contains(w) by {
        let k = choose|k: int| 0 <= k < s1.len() && s1[k] == w;
        assert(r[s1.len() - k - 1] == w);
        assert(r.contains(w));
    }
    assert(r.to_set() =~= s1.to_set());
    lemma_sorted_set_unique(opposite(dir), r, s2);
}

/// Reversing every source keeps the union: feeding the sources to the
/// opposite order changes no value, only the order they come out in.
pub proof fn lemma_reverse_keeps_values(seqs: Seq<Seq<u64>>)
    ensures
        value_set(seqs.map_values(|s: Seq<u64>| s.reverse())) == value_set(seqs),
{
    let rev = seqs.map_values(|s: Seq<u64>| s.reverse());
    assert forall|w: u64| value_set(rev).contains(w) implies value_set(seqs).contains(w) by {
        let i = choose|i: int| 0 <= i < rev.len() && #[trigger] rev[i].contains(w);
        let k = choose|k: int| 0 <= k < rev[i].len() && rev[i][k] == w;
        assert(seqs[i][seqs[i].len() - k - 1] == w);
        assert(seqs[i].contains(w));
    }
    assert forall|w: u64| value_set(seqs).contains(w) implies value_set(rev).contains(w) by {
        let i = choose|i: int| 0 <= i < seqs.len() && #[trigger] seqs[i].contains(w);
        let k = choose|k: int| 0 <= k < seqs[i].len() && seqs[i][k] == w;
        assert(rev[i][seqs[i].len() - k - 1] == w);
        assert(rev[i].contains(w));
    }
    assert(value_set(rev) =~= value_set(seqs));
}

/// With no sources there is nothing to emit: an output whose values are the
/// union of no sources is empty.
pub proof fn lemma_no_sources_no_output(out: Seq<u64>)
    requires
        out.to_set() == value_set(Seq::<Seq<u64>>::empty()),
    ensures
        out == Seq::<u64>::empty(),
{
    if out.len() > 0 {
        assert(out.contains(out[0]));
        assert(out.to_set().contains(out[0]));
        assert(false);
    }
    assert(out =~= Seq::<u64>::empty());
}

/// An empty source changes nothing: a merge of the sources and a merge with
/// that source left out produce the same output.
pub proof fn lemma_empty_source_same_output(
    dir: Direction,
    seqs: Seq<Seq<u64>>,
    j: int,
    out1: Seq<u64>,
    out2: Seq<u64>,
)
    requires
        0 <= j < seqs.len(),
        seqs[j].len() == 0,
        sorted(dir, out1),
        out1.to_set() == value_set(seqs),
        sorted(dir, out2),
        out2.to_set() == value_set(seqs.remove(j)),
    ensures
        out1 == out2,
{
    lemma_empty_source_inert(seqs, j);
    lemma_sorted_set_unique(dir, out1, out2);
}

/// An empty source contributes nothing: leaving it out keeps the union, so by
/// `lemma_sorted_set_unique` the merged output is the same.
pub proof fn lemma_empty_source_inert(seqs: Seq<Seq<u64>>, j: int)
    requires
        0 <= j < seqs.len(),
        seqs[j].len() == 0,
    ensures
        value_set(seqs.remove(j)) == value_set(seqs),
{
    let cut = seqs.remove(j);
    assert forall|w: u64| value_set(cut).contains(w) implies value_set(seqs).contains(w) by {
        let i = choose|i: int| 0 <= i < cut.len() && #[trigger] cut[i].contains(w);
        if i < j {
            assert(seqs[i].contains(w));
        } else {
            assert(seqs[i + 1].contains(w));
        }
    }
    assert forall|w: u64| value_set(seqs).contains(w) implies value_set(cut).contains(w) by {
        let i = choose|i: int| 0 <= i < seqs.len() && #[trigger] seqs[i].contains(w);
        assert(i != j);
        if i < j {
            assert(cut[i].contains(w));
        } else {
            assert(cut[i - 1].contains(w));
        }
    }
    assert(value_set(cut) =~= value_set(seqs));
}

} // verus!
