//! The detailed merge engine: like the plain one, but each emitted value
//! comes as the group of (source index, value) pairs that tied for it.

use crate::engine::MergeCore;
use crate::model::{
    after_step, all_drained, contributions, drain_order, group_filter, group_layout, group_values,
    holder_order, least_head, lemma_after_step_total, lemma_concat_contains,
    lemma_drain_is_holder_order, lemma_step_effect, tied, total_len, value_set,
};
use crate::order::{sorted, value_lt, Direction};
use crate::source::Source;
use vstd::prelude::*;

verus! {

/// Lazily produces the deduplicated union of its sources, reporting for each
/// distinct value the group of (source index, value) pairs that held it.
pub struct DetailedMergeIterator {
    core: MergeCore,
}

impl View for DetailedMergeIterator {
    type V = Seq<Seq<u64>>;

    /// What is left of every source, the engine's look-ahead included.
    closed spec fn view(&self) -> Seq<Seq<u64>> {
        self.core.seqs()
    }
}

impl DetailedMergeIterator {
    pub closed spec fn wf(self) -> bool {
        self.core.wf()
    }

    pub closed spec fn dir(self) -> Direction {
        self.core.dir
    }

    /// Every value each source was created with.
    pub closed spec fn fulls(self) -> Seq<Seq<u64>> {
        self.core.fulls()
    }

    /// Produces the next group: every source whose pending value is the least
    /// one loses it, and the group holds one (index, value) pair per such
    /// source, in the frontier's drain order — ascending source index under
    /// `Ascending`, descending under `Descending` — with the selected
    /// source's pair moved to the end. Exhaustion is reported with nothing
    /// and changes nothing, as often as asked.
    pub fn next(&mut self) -> (r: Option<Vec<(usize, u64)>>)
        requires
            old(self).wf(),
        ensures
            final(self).wf(),
            final(self).dir() == old(self).dir(),
            final(self).fulls() == old(self).fulls(),
            match r {
                Option::None => all_drained(old(self)@) && final(self)@ == old(self)@,
                Option::Some(g) => ({
                    let v = g@.last().1;
                    &&& g@.len() > 0
                    &&& least_head(old(self).dir(), old(self)@, v)
                    &&& final(self)@ == after_step(old(self)@, v)
                    &&& forall|k: int|
                        0 <= k < g@.len() ==> (#[trigger] g@[k]).1 == v && tied(
                            old(self)@,
                            v,
                            g@[k].0 as int,
                        )
                    &&& forall|iu: usize|
                        #[trigger] group_filter(g@, iu) == if tied(old(self)@, v, iu as int) {
                            seq![v]
                        } else {
                            Seq::<u64>::empty()
                        }
                    &&& g@ == group_layout(drain_order(old(self).dir(), old(self)@, v), v)
                }),
            },
    {
        self.core.step()
    }

    /// Drains everything. The groups' values are the whole union, strictly
    /// sorted under the direction; flattening the groups and keeping one
    /// source's pairs reproduces exactly that source's sequence; each group
    /// holds exactly one pair per source that held its value, laid out in
    /// the drain order with the selected source's pair last.
    pub fn collect_all(&mut self) -> (out: Vec<Vec<(usize, u64)>>)
        requires
            old(self).wf(),
        ensures
            final(self).wf(),
            final(self).dir() == old(self).dir(),
            final(self).fulls() == old(self).fulls(),
            final(self)@.len() == old(self)@.len(),
            all_drained(final(self)@),
            ({
                let gs = out@.map_values(|g: Vec<(usize, u64)>| g@);
                &&& sorted(old(self).dir(), group_values(gs))
                &&& group_values(gs).to_set() == value_set(old(self)@)
                &&& forall|k: int|
                    0 <= k < gs.len() ==> (#[trigger] gs[k]).len() > 0
                &&& forall|k: int, t: int|
                    0 <= k < gs.len() && 0 <= t < gs[k].len() ==> (#[trigger] gs[k][t]).1
                        == gs[k].last().1 && (gs[k][t]).0 < old(self)@.len()
                &&& forall|i: usize|
                    (i as int) < old(self)@.len() ==> #[trigger] contributions(gs, i) == old(
                        self,
                    )@[i as int]
                &&& forall|k: int, i: usize|
                    0 <= k < gs.len() && (i as int) < old(self)@.len()
                        ==> #[trigger] group_filter(gs[k], i) == if old(self)@[i as int].contains(
                        gs[k].last().1,
                    ) {
                        seq![gs[k].last().1]
                    } else {
                        Seq::<u64>::empty()
                    }
                &&& forall|k: int|
                    0 <= k < gs.len() ==> #[trigger] gs[k] == group_layout(
                        holder_order(old(self).dir(), old(self)@, gs[k].last().1),
                        gs[k].last().1,
                    )
            }),
    {
        let ghost orig = self@;
        let ghost dir = self.dir();
        let ghost fulls0 = self.fulls();
        let mut out: Vec<Vec<(usize, u64)>> = Vec::new();
        let ghost mut gs: Seq<Seq<(usize, u64)>> = Seq::empty();
        loop
            invariant
                self.wf(),
                self.dir() == dir,
                self.fulls() == fulls0,
                self@.len() == orig.len(),
                gs == out@.map_values(|g: Vec<(usize, u64)>| g@),
                sorted(dir, group_values(gs)),
                group_values(gs).to_set().union(value_set(self@)) == value_set(orig),
                forall|w: u64, k: int|
                    #[trigger] value_set(self@).contains(w) && 0 <= k < gs.len() ==> value_lt(
                        dir,
                        #[trigger] group_values(gs)[k],
                        w,
                    ),
                forall|k: int| 0 <= k < gs.len() ==> (#[trigger] gs[k]).len() > 0,
                forall|k: int, t: int|
                    0 <= k < gs.len() && 0 <= t < gs[k].len() ==> (#[trigger] gs[k][t]).1
                        == gs[k].last().1 && (gs[k][t]).0 < orig.len(),
                forall|i: usize|
                    (i as int) < orig.len() ==> orig[i as int] == #[trigger] contributions(gs, i)
                        + self@[i as int],
                forall|i: usize, w: u64|
                    (i as int) < orig.len() && #[trigger] contributions(gs, i).contains(w)
                        ==> group_values(gs).contains(w),
                forall|k: int, i: usize|
                    0 <= k < gs.len() && (i as int) < orig.len() ==> #[trigger] group_filter(
                        gs[k],
                        i,
                    ) == if orig[i as int].contains(gs[k].last().1) {
                        seq![gs[k].last().1]
                    } else {
                        Seq::<u64>::empty()
                    },
                forall|k: int|
                    0 <= k < gs.len() ==> #[trigger] gs[k] == group_layout(
                        holder_order(dir, orig, gs[k].last().1),
                        gs[k].last().1,
                    ),
            ensures
                self.wf(),
                self.dir() == dir,
                self.fulls() == fulls0,
                self@.len() == orig.len(),
                all_drained(self@),
                gs == out@.map_values(|g: Vec<(usize, u64)>| g@),
                sorted(dir, group_values(gs)),
                group_values(gs).to_set() == value_set(orig),
                forall|k: int| 0 <= k < gs.len() ==> (#[trigger] gs[k]).len() > 0,
                forall|k: int, t: int|
                    0 <= k < gs.len() && 0 <= t < gs[k].len() ==> (#[trigger] gs[k][t]).1
                        == gs[k].last().1 && (gs[k][t]).0 < orig.len(),
                forall|i: usize|
                    (i as int) < orig.len() ==> #[trigger] contributions(gs, i) == orig[i as int],
                forall|k: int, i: usize|
                    0 <= k < gs.len() && (i as int) < orig.len() ==> #[trigger] group_filter(
                        gs[k],
                        i,
                    ) == if orig[i as int].contains(gs[k].last().1) {
                        seq![gs[k].last().1]
                    } else {
                        Seq::<u64>::empty()
                    },
                forall|k: int|
                    0 <= k < gs.len() ==> #[trigger] gs[k] == group_layout(
                        holder_order(dir, orig, gs[k].last().1),
                        gs[k].last().1,
                    ),
            decreases total_len(self@),
        {
            let ghost pre = *self;
            let r = self.next();
            match r {
                Option::None => {
                    proof {
                        assert forall|w: u64| !value_set(self@).contains(w) by {
                            if value_set(self@).contains(w) {
                                let i = choose|i: int|
                                    0 <= i < self@.len() && #[trigger] self@[i].contains(w);
                                assert(self@[i].len() == 0);
                                assert(false);
                            }
                        }
                        assert(group_values(gs).to_set() =~= value_set(orig));
                        assert forall|i: usize| (i as int) < orig.len() implies
                            #[trigger] contributions(gs, i) == orig[i as int] by {
                            assert(self@[i as int].len() == 0);
                            assert(contributions(gs, i) + self@[i as int] =~= contributions(
                                gs,
                                i,
                            ));
                        }
                    }
                    break;
                },
                Option::Some(g) => {
                    let ghost gv = g@;
                    let ghost v = g@.last().1;
                    let ghost gs0 = gs;
                    let ghost vals0 = group_values(gs0);
                    out.push(g);
                    proof {
                        gs = gs0.push(gv);
                        assert(gs =~= out@.map_values(|g2: Vec<(usize, u64)>| g2@));
                        assert(group_values(gs) =~= vals0.push(v));
                        assert forall|j: int| 0 <= j < pre@.len() implies sorted(
                            dir,
                            #[trigger] pre@[j],
                        ) by {
                            assert(pre@[j] == pre.core.eff(j));
                        }
                        lemma_step_effect(dir, pre@, v);
                        assert(value_set(pre@).contains(v));
                        // the new value is later than every value already out
                        assert forall|a: int, b: int|
                            0 <= a < b < group_values(gs).len() implies value_lt(
                            dir,
                            group_values(gs)[a],
                            group_values(gs)[b],
                        ) by {
                            if b == group_values(gs).len() - 1 {
                                assert(value_lt(dir, vals0[a], v));
                            }
                        }
                        vals0.lemma_push_to_set_commute(v);
                        assert(group_values(gs).to_set().union(value_set(self@)) =~= value_set(
                            orig,
                        ));
                        assert forall|w: u64, k: int|
                            #[trigger] value_set(self@).contains(w) && 0 <= k < gs.len() implies
                            value_lt(dir, #[trigger] group_values(gs)[k], w) by {
                            assert(value_lt(dir, v, w));
                            assert(value_set(pre@).contains(w));
                            if k < gs.len() - 1 {
                                assert(value_lt(dir, vals0[k], w));
                            }
                        }
                        // conservation: the group took the head of exactly
                        // the tied sources
                        assert forall|i: usize| (i as int) < orig.len() implies orig[i as int]
                            == #[trigger] contributions(gs, i) + self@[i as int] by {
                            assert(gs.drop_last() =~= gs0);
                            assert(contributions(gs, i) == contributions(gs0, i) + group_filter(
                                gv,
                                i,
                            ));
                            if tied(pre@, v, i as int) {
                                assert(group_filter(gv, i) == seq![v]);
                                assert(self@[i as int] == pre@[i as int].drop_first());
                                assert(pre@[i as int] =~= seq![v] + pre@[i as int].drop_first());
                                assert(orig[i as int] =~= (contributions(gs0, i) + seq![v])
                                    + self@[i as int]);
                            } else {
                                assert(group_filter(gv, i) == Seq::<u64>::empty());
                                assert(contributions(gs, i) =~= contributions(gs0, i));
                                assert(self@[i as int] == pre@[i as int]);
                            }
                        }
                        // contributed values are always values already out
                        assert forall|i: usize, w: u64|
                            (i as int) < orig.len() && #[trigger] contributions(gs, i).contains(
                                w,
                            ) implies group_values(gs).contains(w) by {
                            assert(gs.drop_last() =~= gs0);
                            lemma_concat_contains(contributions(gs0, i), group_filter(gv, i), w);
                            if contributions(gs0, i).contains(w) {
                                let k = choose|k: int|
                                    0 <= k < vals0.len() && vals0[k] == w;
                                assert(group_values(gs)[k] == w);
                            } else {
                                assert(group_filter(gv, i).contains(w));
                                assert(w == v);
                                assert(group_values(gs)[gs.len() - 1] == v);
                            }
                        }
                        // the new group takes from source i exactly when the
                        // source's sequence holds the value
                        assert forall|i: usize| (i as int) < orig.len() implies tied(
                            pre@,
                            v,
                            i as int,
                        ) == orig[i as int].contains(v) by {
                            let ci = contributions(gs0, i);
                            if tied(pre@, v, i as int) {
                                assert(orig[i as int] == ci + pre@[i as int]);
                                assert((ci + pre@[i as int])[ci.len() as int] == v);
                                assert(orig[i as int].contains(v));
                            }
                            if orig[i as int].contains(v) {
                                let k = choose|k: int|
                                    0 <= k < orig[i as int].len() && orig[i as int][k] == v;
                                if k < ci.len() {
                                    assert(ci[k] == v);
                                    assert(ci.contains(v));
                                    let k2 = choose|k2: int|
                                        0 <= k2 < vals0.len() && vals0[k2] == v;
                                    assert(value_lt(dir, vals0[k2], v));
                                    assert(false);
                                } else {
                                    assert(pre@[i as int][k - ci.len()] == v);
                                    if k - ci.len() > 0 {
                                        assert(value_lt(
                                            dir,
                                            pre@[i as int][0],
                                            pre@[i as int][k - ci.len()],
                                        ));
                                        assert(!value_lt(dir, pre@[i as int][0], v));
                                        assert(false);
                                    }
                                    assert(tied(pre@, v, i as int));
                                }
                            }
                        }
                        assert forall|k: int, i: usize|
                            0 <= k < gs.len() && (i as int) < orig.len() implies
                            #[trigger] group_filter(gs[k], i) == (if orig[i as int].contains(
                            gs[k].last().1,
                        ) {
                            seq![gs[k].last().1]
                        } else {
                            Seq::<u64>::empty()
                        }) by {
                            if k == gs.len() - 1 {
                                assert(gs[k] == gv);
                                assert(gs[k].last().1 == v);
                            } else {
                                assert(gs[k] == gs0[k]);
                            }
                        }
                        // the group's exact layout, against the full sources
                        assert(orig.len() == self.core.sources@.len());
                        assert forall|ii: int| 0 <= ii < pre@.len() implies tied(pre@, v, ii)
                            == orig[ii].contains(v) by {
                            let iu = ii as usize;
                            assert((iu as int) == ii);
                            assert(tied(pre@, v, iu as int) == orig[iu as int].contains(v));
                        }
                        lemma_drain_is_holder_order(dir, pre@, orig, v);
                        assert(gv == group_layout(holder_order(dir, orig, v), v));
                        assert forall|k: int| 0 <= k < gs.len() implies #[trigger] gs[k]
                            == group_layout(
                            holder_order(dir, orig, gs[k].last().1),
                            gs[k].last().1,
                        ) by {
                            if k == gs.len() - 1 {
                                assert(gs[k] == gv);
                                assert(gs[k].last().1 == v);
                            } else {
                                assert(gs[k] == gs0[k]);
                            }
                        }
                        let ti = choose|ti: int| tied(pre@, v, ti);
                        lemma_after_step_total(pre@, v, ti);
                    }
                },
            }
        }
        out
    }

    /// Hands the sources back. After a full drain every one of them is
    /// exhausted: the engine pulled exactly what it needed.
    pub fn into_sources(self) -> (out: Vec<Source>)
        requires
            self.wf(),
        ensures
            out@.len() == self.fulls().len(),
            forall|i: int|
                0 <= i < out@.len() ==> (#[trigger] out@[i]).wf() && out@[i].full()
                    == self.fulls()[i],
            forall|i: int|
                0 <= i < out@.len() ==> (#[trigger] out@[i]).remaining() == if self@[i].len() > 0 {
                    self@[i].drop_first()
                } else {
                    Seq::<u64>::empty()
                },
            all_drained(self@) ==> forall|i: int|
                0 <= i < out@.len() ==> (#[trigger] out@[i]).remaining().len() == 0,
    {
        proof {
            assert forall|i: int| 0 <= i < self.core.sources.len() implies (
            #[trigger] self.core.sources[i]).remaining() == (if self@[i].len() > 0 {
                self@[i].drop_first()
            } else {
                Seq::<u64>::empty()
            }) by {
                assert(self@[i] == self.core.eff(i));
                if self@[i].len() > 0 {
                    assert(self.core.pending@[i] is Some);
                    assert(self@[i].drop_first() =~= self.core.sources[i].remaining());
                } else {
                    assert(self.core.sources[i].remaining() =~= Seq::<u64>::empty());
                }
            }
        }
        self.core.sources
    }
}

/// Merges the sources into one lazy detailed engine under the order `dir`.
/// Every source must already be sorted and free of duplicates under it.
pub fn merge_iters_detailed_by(sources: Vec<Source>, dir: Direction) -> (m: DetailedMergeIterator)
    requires
        forall|i: int|
            0 <= i < sources.len() ==> (#[trigger] sources[i]).wf() && sorted(
                dir,
                sources[i].remaining(),
            ),
    ensures
        m.wf(),
        m.dir() == dir,
        m@.len() == sources.len(),
        forall|i: int| 0 <= i < sources.len() ==> m@[i] == sources[i].remaining(),
        m.fulls().len() == sources.len(),
        forall|i: int| 0 <= i < sources.len() ==> m.fulls()[i] == sources[i].full(),
{
    DetailedMergeIterator { core: MergeCore::init(sources, dir) }
}

/// Merges the sources in detail under the natural ascending order of `u64`.
pub fn merge_iters_detailed(sources: Vec<Source>) -> (m: DetailedMergeIterator)
    requires
        forall|i: int|
            0 <= i < sources.len() ==> (#[trigger] sources[i]).wf() && sorted(
                Direction::Ascending,
                sources[i].remaining(),
            ),
    ensures
        m.wf(),
        m.dir() == Direction::Ascending,
        m@.len() == sources.len(),
        forall|i: int| 0 <= i < sources.len() ==> m@[i] == sources[i].remaining(),
        m.fulls().len() == sources.len(),
        forall|i: int| 0 <= i < sources.len() ==> m.fulls()[i] == sources[i].full(),
{
    merge_iters_detailed_by(sources, Direction::Ascending)
}

} // verus!
