//! The shared engine: sources, frontier and the one production step both
//! merge flavours are built on.

use crate::frontier::{frontier_entries, lex_le, Frontier};
use crate::model::{after_step, all_drained, drain_order, group_filter, group_layout, least_head,
    lemma_drain_order_unique, lemma_sorted_drop_first, lemma_total_len_drop, tied, total_len};
use crate::order::{
    ikey_for, ikey_of, key_for, key_of, lemma_ikey_of, lemma_key_of, sorted, value_lt, Direction,
};
use crate::source::Source;
use vstd::multiset::Multiset;
use vstd::prelude::*;

verus! {

broadcast use vstd::multiset::group_multiset_axioms;

/// The frontier entry that stands for pending value `v` of source `i`.
pub open spec fn entry_for(dir: Direction, v: u64, i: int) -> (u64, usize) {
    (key_of(dir, v), ikey_of(dir, i as usize))
}

/// Source `i` still has a pending value.
pub open spec fn live(p: Seq<Option<u64>>, i: int) -> bool {
    0 <= i < p.len() && p[i] is Some
}

/// The frontier entries that a pending map calls for: one per live source.
pub open spec fn entries_of(dir: Direction, p: Seq<Option<u64>>) -> Multiset<(u64, usize)>
    decreases p.len(),
{
    if p.len() == 0 {
        Multiset::empty()
    } else {
        let rest = entries_of(dir, p.drop_last());
        match p.last() {
            Option::Some(v) => rest.insert(entry_for(dir, v, p.len() - 1)),
            Option::None => rest,
        }
    }
}

/// Some live source calls for exactly the entry `x`.
pub open spec fn has_entry(dir: Direction, p: Seq<Option<u64>>, x: (u64, usize)) -> bool {
    exists|i: int| live(p, i) && x == entry_for(dir, p[i].unwrap(), i)
}

/// Each entry occurs once if some live source calls for it, else not at all:
/// the tie-break keys of distinct sources differ.
pub proof fn lemma_entries_count(dir: Direction, p: Seq<Option<u64>>, x: (u64, usize))
    requires
        p.len() <= usize::MAX,
    ensures
        entries_of(dir, p).count(x) == if has_entry(dir, p, x) {
            1nat
        } else {
            0nat
        },
    decreases p.len(),
{
    if p.len() > 0 {
        let q = p.drop_last();
        let last = p.len() - 1;
        lemma_entries_count(dir, q, x);
        assert forall|i: int| live(q, i) implies live(p, i) && q[i] == p[i] by {}
        if p.last() is Some {
            let v = p.last().unwrap();
            let e = entry_for(dir, v, last);
            assert(live(p, last) && p[last].unwrap() == v);
            if x == e {
                // no earlier source calls for the last source's entry
                if has_entry(dir, q, x) {
                    let i = choose|i: int| live(q, i) && x == entry_for(dir, q[i].unwrap(), i);
                    lemma_ikey_of(dir, i as usize, last as usize);
                    assert(false);
                }
                assert(has_entry(dir, p, x));
            } else {
                if has_entry(dir, p, x) {
                    let i = choose|i: int| live(p, i) && x == entry_for(dir, p[i].unwrap(), i);
                    assert(i < last);
                    assert(live(q, i) && q[i] == p[i]);
                    assert(has_entry(dir, q, x));
                }
                if has_entry(dir, q, x) {
                    assert(has_entry(dir, p, x));
                }
            }
        } else {
            if has_entry(dir, p, x) {
                let i = choose|i: int| live(p, i) && x == entry_for(dir, p[i].unwrap(), i);
                assert(i < last);
                assert(live(q, i) && q[i] == p[i]);
                assert(has_entry(dir, q, x));
            }
            if has_entry(dir, q, x) {
                assert(has_entry(dir, p, x));
            }
        }
    } else {
        if has_entry(dir, p, x) {
            let i = choose|i: int| live(p, i) && x == entry_for(dir, p[i].unwrap(), i);
            assert(false);
        }
    }
}

/// Blanking the pending value of a live source removes exactly its entry.
pub proof fn lemma_entries_remove(dir: Direction, p: Seq<Option<u64>>, i: int)
    requires
        p.len() <= usize::MAX,
        live(p, i),
    ensures
        entries_of(dir, p.update(i, Option::None)) == entries_of(dir, p).remove(
            entry_for(dir, p[i].unwrap(), i),
        ),
    decreases p.len(),
{
    let q = p.update(i, Option::None);
    let e = entry_for(dir, p[i].unwrap(), i);
    assert forall|x: (u64, usize)|
        entries_of(dir, q).count(x) == entries_of(dir, p).remove(e).count(x) by {
        lemma_entries_count(dir, q, x);
        lemma_entries_count(dir, p, x);
        lemma_entries_count(dir, p, e);
        assert(has_entry(dir, p, e));
        if x == e {
            if has_entry(dir, q, x) {
                let j = choose|j: int| live(q, j) && x == entry_for(dir, q[j].unwrap(), j);
                lemma_ikey_of(dir, j as usize, i as usize);
                assert(false);
            }
        } else {
            if has_entry(dir, q, x) {
                let j = choose|j: int| live(q, j) && x == entry_for(dir, q[j].unwrap(), j);
                assert(live(p, j) && p[j] == q[j]);
                assert(has_entry(dir, p, x));
            }
            if has_entry(dir, p, x) {
                let j = choose|j: int| live(p, j) && x == entry_for(dir, p[j].unwrap(), j);
                if j == i {
                    lemma_key_of(dir, p[i].unwrap(), p[i].unwrap());
                    assert(x == e);
                    assert(false);
                }
                assert(live(q, j) && q[j] == p[j]);
                assert(has_entry(dir, q, x));
            }
        }
    }
    assert(entries_of(dir, q) =~= entries_of(dir, p).remove(e));
}

/// Giving a blank source a pending value adds exactly its entry.
pub proof fn lemma_entries_insert(dir: Direction, p: Seq<Option<u64>>, i: int, v: u64)
    requires
        p.len() <= usize::MAX,
        0 <= i < p.len(),
        p[i] is None,
    ensures
        entries_of(dir, p.update(i, Option::Some(v))) == entries_of(dir, p).insert(
            entry_for(dir, v, i),
        ),
{
    let q = p.update(i, Option::Some(v));
    let e = entry_for(dir, v, i);
    assert forall|x: (u64, usize)|
        entries_of(dir, q).count(x) == entries_of(dir, p).insert(e).count(x) by {
        lemma_entries_count(dir, q, x);
        lemma_entries_count(dir, p, x);
        lemma_entries_count(dir, q, e);
        assert(live(q, i) && q[i].unwrap() == v);
        assert(has_entry(dir, q, e));
        if x == e {
            if has_entry(dir, p, x) {
                let j = choose|j: int| live(p, j) && x == entry_for(dir, p[j].unwrap(), j);
                lemma_ikey_of(dir, j as usize, i as usize);
                assert(false);
            }
        } else {
            if has_entry(dir, q, x) {
                let j = choose|j: int| live(q, j) && x == entry_for(dir, q[j].unwrap(), j);
                if j == i {
                    assert(x == e);
                    assert(false);
                }
                assert(live(p, j) && p[j] == q[j]);
                assert(has_entry(dir, p, x));
            }
            if has_entry(dir, p, x) {
                let j = choose|j: int| live(p, j) && x == entry_for(dir, p[j].unwrap(), j);
                assert(j != i);
                assert(live(q, j) && q[j] == p[j]);
                assert(has_entry(dir, q, x));
            }
        }
    }
    assert(entries_of(dir, q) =~= entries_of(dir, p).insert(e));
}

/// A pending map whose entries are gone has no live source.
pub proof fn lemma_entries_none(dir: Direction, p: Seq<Option<u64>>)
    requires
        p.len() <= usize::MAX,
        entries_of(dir, p).len() == 0,
    ensures
        forall|i: int| !live(p, i),
{
    assert forall|i: int| !live(p, i) by {
        if live(p, i) {
            let e = entry_for(dir, p[i].unwrap(), i);
            lemma_entries_count(dir, p, e);
            assert(has_entry(dir, p, e));
            vstd::multiset::lemma_multiset_empty_len(entries_of(dir, p));
            assert(false);
        }
    }
}

/// The state both engines share: the sources, the frontier over their pending
/// values, the direction, and the ghost pending map that ties the two.
pub(crate) struct MergeCore {
    pub sources: Vec<Source>,
    pub frontier: Frontier,
    pub dir: Direction,
    pub pending: Ghost<Seq<Option<u64>>>,
}

impl MergeCore {
    /// What is left of source `i`: its pending value, if any, then what the
    /// source itself still holds.
    pub(crate) open spec fn eff(self, i: int) -> Seq<u64> {
        match self.pending@[i] {
            Option::Some(v) => seq![v] + self.sources[i].remaining(),
            Option::None => Seq::empty(),
        }
    }

    /// What is left of every source.
    pub(crate) open spec fn seqs(self) -> Seq<Seq<u64>> {
        Seq::new(self.sources.len() as nat, |i: int| self.eff(i))
    }

    /// Every value each source was created with.
    pub(crate) open spec fn fulls(self) -> Seq<Seq<u64>> {
        Seq::new(self.sources.len() as nat, |i: int| self.sources[i].full())
    }

    pub(crate) open spec fn wf(self) -> bool {
        &&& self.pending@.len() == self.sources.len()
        &&& frontier_entries(self.frontier) == entries_of(self.dir, self.pending@)
        &&& forall|i: int| 0 <= i < self.sources.len() ==> (#[trigger] self.sources[i]).wf()
        &&& forall|i: int| 0 <= i < self.sources.len() ==> sorted(self.dir, #[trigger] self.eff(i))
        &&& forall|i: int|
            0 <= i < self.sources.len() && self.pending@[i] is None ==> (
            #[trigger] self.sources[i]).remaining().len() == 0
    }

    /// Builds the shared state: pulls one value from every source into the
    /// frontier; a source with nothing to give stays out of it for good.
    pub(crate) fn init(sources: Vec<Source>, dir: Direction) -> (c: MergeCore)
        requires
            forall|i: int|
                0 <= i < sources.len() ==> (#[trigger] sources[i]).wf() && sorted(
                    dir,
                    sources[i].remaining(),
                ),
        ensures
            c.wf(),
            c.dir == dir,
            c.seqs().len() == sources.len(),
            forall|i: int| 0 <= i < sources.len() ==> c.seqs()[i] == sources[i].remaining(),
            c.fulls().len() == sources.len(),
            forall|i: int| 0 <= i < sources.len() ==> c.fulls()[i] == sources[i].full(),
    {
        let ghost orig = sources@;
        let mut srcs = sources;
        let mut frontier = Frontier::empty();
        let ghost mut pend: Seq<Option<u64>> = Seq::empty();
        let n = srcs.len();
        let mut i: usize = 0;
        while i < n
            invariant
                i <= n,
                n == srcs.len(),
                srcs@.len() == orig.len(),
                pend.len() == i as nat,
                forall|j: int| 0 <= j < n ==> (#[trigger] srcs[j]).wf(),
                forall|j: int| i <= j < n ==> srcs[j] == orig[j],
                forall|j: int| 0 <= j < n ==> (#[trigger] srcs[j]).full() == orig[j].full(),
                forall|j: int| 0 <= j < n ==> sorted(dir, (#[trigger] orig[j]).remaining()),
                frontier_entries(frontier) == entries_of(dir, pend),
                forall|j: int|
                    0 <= j < i ==> match #[trigger] pend[j] {
                        Option::Some(v) => seq![v] + srcs[j].remaining() == orig[j].remaining(),
                        Option::None => orig[j].remaining().len() == 0 && srcs[j].remaining().len()
                            == 0,
                    },
            decreases n - i,
        {
            let r = srcs[i].next();
            match r {
                Option::Some(v) => {
                    let k = key_for(dir, v);
                    let t = ikey_for(dir, i);
                    frontier.push(k, t);
                    proof {
                        let pend2 = pend.push(Option::Some(v));
                        assert(pend2.drop_last() =~= pend);
                        assert(entries_of(dir, pend2) == entries_of(dir, pend).insert(
                            entry_for(dir, v, i as int),
                        ));
                        assert(seq![v] + srcs@[i as int].remaining() =~= orig[i as int].remaining());
                        pend = pend2;
                    }
                }
                Option::None => {
                    proof {
                        let pend2 = pend.push(Option::None);
                        assert(pend2.drop_last() =~= pend);
                        assert(entries_of(dir, pend2) == entries_of(dir, pend));
                        pend = pend2;
                    }
                }
            }
            i = i + 1;
        }
        let c = MergeCore { sources: srcs, frontier, dir, pending: Ghost(pend) };
        proof {
            assert forall|j: int| 0 <= j < n implies #[trigger] c.eff(j) == orig[j].remaining() by {
                match pend[j] {
                    Option::Some(v) => {
                        assert(seq![v] + c.sources[j].remaining() == orig[j].remaining());
                    }
                    Option::None => {
                        assert(c.eff(j) =~= orig[j].remaining());
                    }
                }
            }
        }
        c
    }

    /// One production step: pops the least pending value, drains it from
    /// every source that held it (replenishing each), and reports the group
    /// of (index, value) pairs so drained, the selected source's pair last.
    /// Once everything is drained it reports nothing and changes nothing.
    pub(crate) fn step(&mut self) -> (r: Option<Vec<(usize, u64)>>)
        requires
            old(self).wf(),
        ensures
            final(self).wf(),
            final(self).dir == old(self).dir,
            final(self).fulls() == old(self).fulls(),
            final(self).seqs().len() == old(self).seqs().len(),
            match r {
                Option::None => all_drained(old(self).seqs()) && *final(self) == *old(self),
                Option::Some(g) => ({
                    let v = g@.last().1;
                    let seqs0 = old(self).seqs();
                    &&& g@.len() > 0
                    &&& least_head(old(self).dir, seqs0, v)
                    &&& final(self).seqs() == after_step(seqs0, v)
                    &&& forall|k: int|
                        0 <= k < g@.len() ==> (#[trigger] g@[k]).1 == v && tied(
                            seqs0,
                            v,
                            g@[k].0 as int,
                        )
                    &&& forall|iu: usize|
                        #[trigger] group_filter(g@, iu) == if tied(seqs0, v, iu as int) {
                            seq![v]
                        } else {
                            Seq::<u64>::empty()
                        }
                    &&& g@ == group_layout(drain_order(old(self).dir, seqs0, v), v)
                }),
            },
    {
        let ghost seqs0 = self.seqs();
        let ghost fulls0 = self.fulls();
        let ghost p0 = self.pending@;
        let dir = self.dir;
        if self.frontier.len() == 0 {
            proof {
                lemma_entries_none(dir, p0);
                assert forall|j: int| 0 <= j < seqs0.len() implies #[trigger] seqs0[j].len()
                    == 0 by {
                    assert(!live(p0, j));
                }
            }
            return None;
        }
        // select: the least entry names the source whose value is emitted
        let e = self.frontier.pop_min();
        let i = ikey_for(dir, e.1);
        let v = key_for(dir, e.0);
        proof {
            assert(entries_of(dir, p0).count(e) > 0);
            lemma_entries_count(dir, p0, e);
            let j = choose|j: int| live(p0, j) && e == entry_for(dir, p0[j].unwrap(), j);
            lemma_ikey_of(dir, j as usize, j as usize);
            lemma_key_of(dir, p0[j].unwrap(), p0[j].unwrap());
            assert(i as int == j);
            assert(v == p0[j].unwrap());
            assert(p0[i as int] == Option::<u64>::Some(v));
            assert(seqs0[i as int] == seq![v] + old(self).sources[i as int].remaining());
            assert(tied(seqs0, v, i as int));
            // minimality of the popped entry: no source holds an earlier value
            assert forall|t: int| 0 <= t < seqs0.len() && #[trigger] seqs0[t].len() > 0 implies
                !value_lt(dir, seqs0[t][0], v) by {
                assert(live(p0, t));
                let w = p0[t].unwrap();
                assert(seqs0[t] == seq![w] + old(self).sources[t].remaining());
                assert(seqs0[t][0] == w);
                assert(live(p0, t) && entry_for(dir, w, t) == entry_for(dir, p0[t].unwrap(), t));
                lemma_entries_count(dir, p0, entry_for(dir, w, t));
                assert(entries_of(dir, p0).count(entry_for(dir, w, t)) > 0);
                assert(lex_le(e, entry_for(dir, w, t)));
                lemma_key_of(dir, w, v);
            }
            assert(least_head(dir, seqs0, v));
            // among the tied sources the selected one has the least tie key
            assert(e.0 == key_of(dir, v) && e.1 == ikey_of(dir, i));
            assert forall|j2: int| tied(seqs0, v, j2) && j2 != i as int implies ikey_of(
                dir,
                (j2 as usize),
            ) > ikey_of(dir, i) by {
                assert(seqs0[j2] == old(self).eff(j2));
                assert(live(p0, j2));
                assert(seqs0[j2] == seq![p0[j2].unwrap()] + old(self).sources[j2].remaining());
                assert(p0[j2].unwrap() == v);
                lemma_entries_count(dir, p0, entry_for(dir, v, j2));
                assert(entries_of(dir, p0).count(entry_for(dir, v, j2)) > 0);
                assert(lex_le(e, entry_for(dir, v, j2)));
                lemma_ikey_of(dir, i, (j2 as usize));
            }
            lemma_entries_remove(dir, p0, i as int);
        }
        self.pending = Ghost(p0.update(i as int, Option::None));
        match self.sources[i].next() {
            Option::Some(x) => {
                let k2 = key_for(dir, x);
                proof {
                    lemma_entries_insert(dir, self.pending@, i as int, x);
                }
                self.frontier.push(k2, e.1);
                self.pending = Ghost(self.pending@.update(i as int, Option::Some(x)));
            }
            Option::None => {},
        }
        let mut g: Vec<(usize, u64)> = Vec::new();
        let ghost mut done: Set<int> = Set::<int>::empty().insert(i as int);
        let ghost mut ord: Seq<usize> = seq![i];
        proof {
            assert(self.eff(i as int) =~= seqs0[i as int].drop_first());
            lemma_sorted_drop_first(dir, seqs0[i as int]);
            assert(self.fulls() =~= fulls0);
            assert forall|j: int| 0 <= j < seqs0.len() && j != i as int implies #[trigger] self.eff(
                j,
            ) == seqs0[j] by {}
            assert forall|j: int|
                0 <= j < seqs0.len() && #[trigger] self.eff(j).len() > 0 implies !value_lt(
                dir,
                self.eff(j)[0],
                v,
            ) by {
                assert(seqs0[j] == old(self).eff(j));
                assert(sorted(dir, seqs0[j]));
                if j == i as int {
                    assert(self.eff(j) == seqs0[j].drop_first());
                    assert(seqs0[j].len() >= 2);
                    assert(value_lt(dir, seqs0[j][0], seqs0[j][1]));
                    assert(self.eff(j)[0] == seqs0[j][1]);
                } else {
                    assert(self.eff(j) == seqs0[j]);
                }
            }
            assert forall|j: int| 0 <= j < seqs0.len() implies sorted(
                dir,
                #[trigger] seqs0[j],
            ) by {
                assert(seqs0[j] == old(self).eff(j));
            }
            assert forall|j: int| #[trigger] done.contains(j) implies ord.contains(
                (j as usize),
            ) by {
                assert(j == i as int);
                assert(ord[0] == i);
            }
        }
        loop
            invariant
                self.wf(),
                self.dir == dir,
                self.sources.len() == seqs0.len(),
                seqs0.len() <= usize::MAX,
                self.fulls() == fulls0,
                least_head(dir, seqs0, v),
                tied(seqs0, v, i as int),
                done.contains(i as int),
                forall|j: int| #[trigger] done.contains(j) ==> tied(seqs0, v, j),
                forall|j: int|
                    0 <= j < seqs0.len() ==> #[trigger] self.eff(j) == if done.contains(j) {
                        seqs0[j].drop_first()
                    } else {
                        seqs0[j]
                    },
                forall|j: int|
                    0 <= j < seqs0.len() && #[trigger] self.eff(j).len() > 0 ==> !value_lt(
                        dir,
                        self.eff(j)[0],
                        v,
                    ),
                forall|j: int| 0 <= j < seqs0.len() ==> sorted(dir, #[trigger] seqs0[j]),
                forall|iu: usize|
                    #[trigger] group_filter(g@, iu) == if done.contains(iu as int) && iu != i {
                        seq![v]
                    } else {
                        Seq::<u64>::empty()
                    },
                forall|k: int|
                    0 <= k < g@.len() ==> (#[trigger] g@[k]).1 == v && g@[k].0 != i
                        && done.contains(g@[k].0 as int),
                ord.len() >= 1,
                ord[0] == i,
                g@.len() + 1 == ord.len(),
                forall|k: int| 0 <= k < g@.len() ==> #[trigger] g@[k] == (ord[k + 1], v),
                forall|k: int| 0 <= k < ord.len() ==> done.contains(#[trigger] ord[k] as int),
                forall|j: int| #[trigger] done.contains(j) ==> ord.contains((j as usize)),
                forall|a: int, b: int|
                    0 <= a < b < ord.len() ==> ikey_of(dir, ord[a]) < ikey_of(dir, ord[b]),
                forall|j: int|
                    tied(seqs0, v, j) && !done.contains(j) ==> ikey_of(dir, (j as usize))
                        > ikey_of(dir, ord.last()),
            ensures
                self.wf(),
                self.dir == dir,
                self.sources.len() == seqs0.len(),
                self.fulls() == fulls0,
                forall|j: int|
                    0 <= j < seqs0.len() ==> #[trigger] self.eff(j) == if done.contains(j) {
                        seqs0[j].drop_first()
                    } else {
                        seqs0[j]
                    },
                forall|j: int| tied(seqs0, v, j) ==> done.contains(j),
                forall|j: int| #[trigger] done.contains(j) ==> tied(seqs0, v, j),
                done.contains(i as int),
                forall|iu: usize|
                    #[trigger] group_filter(g@, iu) == if done.contains(iu as int) && iu != i {
                        seq![v]
                    } else {
                        Seq::<u64>::empty()
                    },
                forall|k: int|
                    0 <= k < g@.len() ==> (#[trigger] g@[k]).1 == v && g@[k].0 != i
                        && done.contains(g@[k].0 as int),
                ord.len() >= 1,
                ord[0] == i,
                g@.len() + 1 == ord.len(),
                forall|k: int| 0 <= k < g@.len() ==> #[trigger] g@[k] == (ord[k + 1], v),
                forall|k: int| 0 <= k < ord.len() ==> done.contains(#[trigger] ord[k] as int),
                forall|j: int| #[trigger] done.contains(j) ==> ord.contains((j as usize)),
                forall|a: int, b: int|
                    0 <= a < b < ord.len() ==> ikey_of(dir, ord[a]) < ikey_of(dir, ord[b]),
                forall|j: int|
                    tied(seqs0, v, j) && !done.contains(j) ==> ikey_of(dir, (j as usize))
                        > ikey_of(dir, ord.last()),
            decreases total_len(self.seqs()),
        {
            let ghost sh = *self;
            let ghost siter = self.seqs();
            let ghost pcur = self.pending@;
            if self.frontier.len() == 0 {
                proof {
                    lemma_entries_none(dir, pcur);
                    assert forall|j: int| tied(seqs0, v, j) implies done.contains(j) by {
                        if !done.contains(j) {
                            assert(self.eff(j) == seqs0[j]);
                            assert(self.eff(j).len() > 0);
                            assert(live(pcur, j));
                            assert(false);
                        }
                    }
                }
                break;
            }
            let t = self.frontier.pop_min();
            let tv = key_for(dir, t.0);
            proof {
                assert(entries_of(dir, pcur).count(t) > 0);
                lemma_entries_count(dir, pcur, t);
                let j3 = choose|j: int| live(pcur, j) && t == entry_for(dir, pcur[j].unwrap(), j);
                lemma_ikey_of(dir, j3 as usize, j3 as usize);
                lemma_key_of(dir, pcur[j3].unwrap(), v);
                assert(tv == pcur[j3].unwrap());
                assert(sh.eff(j3) == seq![tv] + sh.sources[j3].remaining());
                assert(sh.eff(j3).len() > 0 && sh.eff(j3)[0] == tv);
                assert(!value_lt(dir, tv, v));
            }
            if tv == v {
                let j2 = ikey_for(dir, t.1);
                proof {
                    let j3 = choose|j: int|
                        live(pcur, j) && t == entry_for(dir, pcur[j].unwrap(), j);
                    lemma_ikey_of(dir, j3 as usize, j3 as usize);
                    assert(j2 as int == j3);
                    assert(pcur[j2 as int] == Option::<u64>::Some(v));
                    // a drained source's new head comes after v, so this one is fresh
                    if done.contains(j2 as int) {
                        assert(sh.eff(j2 as int) == seqs0[j2 as int].drop_first());
                        assert(seqs0[j2 as int][0] == v);
                        assert(value_lt(dir, seqs0[j2 as int][0], seqs0[j2 as int][1]));
                        assert(false);
                    }
                    assert(sh.eff(j2 as int) == seqs0[j2 as int]);
                    assert(tied(seqs0, v, j2 as int));
                    assert(t == entry_for(dir, pcur[j3].unwrap(), j3));
                    assert(t.0 == key_of(dir, v) && t.1 == ikey_of(dir, j2));
                    lemma_entries_remove(dir, pcur, j2 as int);
                }
                self.pending = Ghost(pcur.update(j2 as int, Option::None));
                let ghost gold = g@;
                let ghost done_old = done;
                let ghost ord_old = ord;
                g.push((j2, v));
                proof {
                    done = done.insert(j2 as int);
                    ord = ord.push(j2);
                }
                match self.sources[j2].next() {
                    Option::Some(x) => {
                        let k2 = key_for(dir, x);
                        proof {
                            lemma_entries_insert(dir, self.pending@, j2 as int, x);
                        }
                        self.frontier.push(k2, t.1);
                        self.pending = Ghost(self.pending@.update(j2 as int, Option::Some(x)));
                    }
                    Option::None => {},
                }
                proof {
                    assert(self.eff(j2 as int) =~= seqs0[j2 as int].drop_first());
                    lemma_sorted_drop_first(dir, seqs0[j2 as int]);
                    assert(self.fulls() =~= fulls0);
                    assert forall|j: int| 0 <= j < seqs0.len() && j != j2 as int implies
                        #[trigger] self.eff(j) == sh.eff(j) by {}
                    assert forall|j: int| 0 <= j < seqs0.len() implies #[trigger] siter[j]
                        == sh.eff(j) by {}
                    assert forall|j: int| 0 <= j < seqs0.len() implies #[trigger] self.eff(j) == (
                    if done.contains(j) {
                        seqs0[j].drop_first()
                    } else {
                        seqs0[j]
                    }) by {
                        if j != j2 as int {
                            assert(self.eff(j) == sh.eff(j));
                        }
                    }
                    assert forall|j: int|
                        0 <= j < seqs0.len() && #[trigger] self.eff(j).len() > 0 implies !value_lt(
                        dir,
                        self.eff(j)[0],
                        v,
                    ) by {
                        if j == j2 as int {
                            assert(self.eff(j) == seqs0[j].drop_first());
                            assert(seqs0[j].len() >= 2);
                            assert(value_lt(dir, seqs0[j][0], seqs0[j][1]));
                        } else {
                            assert(self.eff(j) == sh.eff(j));
                        }
                    }
                    assert forall|j: int| 0 <= j < seqs0.len() implies sorted(
                        dir,
                        #[trigger] self.eff(j),
                    ) by {
                        if j != j2 as int {
                            assert(self.eff(j) == sh.eff(j));
                            assert(sorted(dir, sh.eff(j)));
                        }
                    }
                    assert(self.wf());
                    assert forall|j: int| #[trigger] done.contains(j) implies ord.contains(
                        (j as usize),
                    ) by {
                        if j == j2 as int {
                            assert(ord[ord.len() - 1] == j2);
                        } else {
                            assert(done_old.contains(j));
                            let k = choose|k: int|
                                0 <= k < ord_old.len() && ord_old[k] == (j as usize);
                            assert(ord[k] == (j as usize));
                        }
                    }
                    // the drained source extends the tie-key-sorted order
                    assert(ikey_of(dir, j2) > ikey_of(dir, ord_old.last()));
                    assert forall|a: int, b: int| 0 <= a < b < ord.len() implies ikey_of(
                        dir,
                        ord[a],
                    ) < ikey_of(dir, ord[b]) by {
                        if b == ord.len() - 1 {
                            assert(ord[b] == j2);
                            if a < ord_old.len() - 1 {
                                assert(ikey_of(dir, ord_old[a]) < ikey_of(dir, ord_old.last()));
                            }
                        } else {
                            assert(ord[a] == ord_old[a] && ord[b] == ord_old[b]);
                        }
                    }
                    // sources still tied but not yet drained keep larger tie keys
                    assert forall|j: int| tied(seqs0, v, j) && !done.contains(j) implies ikey_of(
                        dir,
                        (j as usize),
                    ) > ikey_of(dir, ord.last()) by {
                        assert(sh.eff(j) == seqs0[j]);
                        assert(live(pcur, j));
                        assert(pcur[j].unwrap() == v);
                        assert(live(pcur, j) && entry_for(dir, v, j) == entry_for(
                            dir,
                            pcur[j].unwrap(),
                            j,
                        ));
                        lemma_entries_count(dir, pcur, entry_for(dir, v, j));
                        assert(entries_of(dir, pcur).count(entry_for(dir, v, j)) > 0);
                        assert(lex_le(t, entry_for(dir, v, j)));
                        lemma_ikey_of(dir, j2, (j as usize));
                        assert(ord.last() == j2);
                    }
                    // the group gained exactly one entry, for source j2
                    assert(g@.drop_last() =~= gold);
                    assert(g@.last() == (j2, v));
                    assert forall|iu: usize|
                        #[trigger] group_filter(g@, iu) == if done.contains(iu as int) && iu != i {
                            seq![v]
                        } else {
                            Seq::<u64>::empty()
                        } by {
                        if iu == j2 {
                            assert(group_filter(gold, iu) =~= Seq::<u64>::empty());
                            assert(group_filter(g@, iu) =~= seq![v]);
                        } else {
                            assert(group_filter(g@, iu) == group_filter(gold, iu));
                        }
                    }
                    // the whole shrinks: the drained source lost its head
                    assert(self.seqs() =~= siter.update(
                        j2 as int,
                        siter[j2 as int].drop_first(),
                    ));
                    lemma_total_len_drop(siter, j2 as int);
                }
            } else {
                // not a tie: put the entry back; every tie is already drained
                self.frontier.push(t.0, t.1);
                proof {
                    assert(frontier_entries(self.frontier) =~= entries_of(dir, pcur));
                    assert(self.pending@ == pcur);
                    assert(frontier_entries(self.frontier) == entries_of(dir, self.pending@));
                    assert forall|j: int| 0 <= j < seqs0.len() implies #[trigger] self.eff(j)
                        == sh.eff(j) by {}
                    assert forall|j: int| 0 <= j < seqs0.len() implies sorted(
                        dir,
                        #[trigger] self.eff(j),
                    ) by {
                        assert(self.eff(j) == sh.eff(j));
                        assert(sorted(dir, sh.eff(j)));
                    }
                    assert(self.wf());
                    let j3 = choose|j: int|
                        live(pcur, j) && t == entry_for(dir, pcur[j].unwrap(), j);
                    lemma_key_of(dir, pcur[j3].unwrap(), v);
                    assert(t.0 >= key_of(dir, v));
                    assert forall|j: int| tied(seqs0, v, j) implies done.contains(j) by {
                        if !done.contains(j) {
                            assert(sh.eff(j) == seqs0[j]);
                            assert(live(pcur, j));
                            let w = pcur[j].unwrap();
                            assert(sh.eff(j) == seq![w] + sh.sources[j].remaining());
                            assert(w == v);
                            assert(live(pcur, j) && entry_for(dir, v, j) == entry_for(
                                dir,
                                pcur[j].unwrap(),
                                j,
                            ));
                            lemma_entries_count(dir, pcur, entry_for(dir, v, j));
                            assert(entries_of(dir, pcur).count(entry_for(dir, v, j)) > 0);
                            assert(lex_le(t, entry_for(dir, v, j)));
                            assert(t.0 == key_of(dir, v));
                            assert(tv == v);
                            assert(false);
                        }
                    }
                }
                break;
            }
        }
        let ghost gdone = g@;
        g.push((i, v));
        proof {
            assert(g@.drop_last() =~= gdone);
            assert(g@.last() == (i, v));
            assert forall|iu: usize|
                #[trigger] group_filter(g@, iu) == if tied(seqs0, v, iu as int) {
                    seq![v]
                } else {
                    Seq::<u64>::empty()
                } by {
                if iu == i {
                    assert(group_filter(gdone, iu) =~= Seq::<u64>::empty());
                    assert(group_filter(g@, iu) =~= seq![v]);
                } else {
                    assert(group_filter(g@, iu) == group_filter(gdone, iu));
                    if tied(seqs0, v, iu as int) {
                        assert(done.contains(iu as int));
                    }
                    if done.contains(iu as int) {
                        assert(tied(seqs0, v, iu as int));
                    }
                }
            }
            assert forall|j: int| 0 <= j < seqs0.len() implies #[trigger] self.seqs()[j]
                == after_step(seqs0, v)[j] by {
                assert(self.seqs()[j] == self.eff(j));
                if seqs0[j].len() > 0 && seqs0[j][0] == v {
                    assert(tied(seqs0, v, j));
                    assert(done.contains(j));
                } else {
                    assert(!tied(seqs0, v, j));
                    assert(!done.contains(j));
                }
            }
            assert(self.seqs() =~= after_step(seqs0, v));
            // the drain order is exactly the tie-key-sorted tied sources
            assert forall|k: int| 0 <= k < ord.len() implies (ord[k] as int) < seqs0.len() && tied(
                seqs0,
                v,
                ord[k] as int,
            ) by {
                assert(done.contains(ord[k] as int));
            }
            assert forall|j: int| 0 <= j < seqs0.len() && tied(seqs0, v, j) implies ord.contains(
                (j as usize),
            ) by {
                assert(done.contains(j));
            }
            lemma_drain_order_unique(dir, seqs0, v, ord);
            assert(ord == drain_order(dir, seqs0, v));
            // the group lists that order, the selected source's pair moved last
            let laid = group_layout(ord, v);
            assert(laid.len() == g@.len());
            assert forall|k: int| 0 <= k < g@.len() implies g@[k] == laid[k] by {
                let inner = ord.drop_first() + ord.take(1);
                assert(laid[k] == (inner[k], v));
                if k < g@.len() - 1 {
                    assert(g@[k] == gdone[k]);
                    assert(gdone[k] == (ord[k + 1], v));
                    assert(inner[k] == ord.drop_first()[k]);
                } else {
                    assert(g@[k] == (i, v));
                    assert(inner[k] == ord.take(1)[0]);
                    assert(ord.take(1)[0] == ord[0]);
                }
            }
            assert(g@ =~= laid);
        }
        Some(g)
    }
}

} // verus!
