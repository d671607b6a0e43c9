//! The merge engine: lazily emits the deduplicated union of many sorted,
//! duplicate-free sources, one value per distinct value, in the chosen order.

use crate::engine::MergeCore;
use crate::model::{after_step, all_drained, least_head, lemma_after_step_total, lemma_step_effect,
    tied, total_len, value_set};
use crate::order::{sorted, value_lt, Direction};
use crate::source::Source;
use vstd::prelude::*;

verus! {

/// Lazily produces the deduplicated union of the sources it was built over,
/// in the order of its direction.
pub struct MergeIterator {
    core: MergeCore,
}

impl View for MergeIterator {
    type V = Seq<Seq<u64>>;

    /// What is left of every source, the engine's look-ahead included.
    closed spec fn view(&self) -> Seq<Seq<u64>> {
        self.core.seqs()
    }
}

impl MergeIterator {
    pub closed spec fn wf(self) -> bool {
        self.core.wf()
    }

    pub closed spec fn dir(self) -> Direction {
        self.core.dir
    }

    /// Every value each source was created with.
    pub closed spec fn fulls(self) -> Seq<Seq<u64>> {
        self.core.fulls()
    }

    /// Produces the next value of the union: the least pending value under
    /// the direction, drained from every source that held it. Exhaustion is
    /// reported with nothing and changes nothing, as often as asked.
    pub fn next(&mut self) -> (r: Option<u64>)
        requires
            old(self).wf(),
        ensures
            final(self).wf(),
            final(self).dir() == old(self).dir(),
            final(self).fulls() == old(self).fulls(),
            match r {
                Option::None => all_drained(old(self)@) && final(self)@ == old(self)@,
                Option::Some(v) => least_head(old(self).dir(), old(self)@, v) && final(self)@
                    == after_step(old(self)@, v),
            },
    {
        match self.core.step() {
            Option::Some(g) => {
                let n = g.len();
                let e = g[n - 1];
                Some(e.1)
            },
            Option::None => None,
        }
    }

    /// Drains everything. The result is the whole union: strictly sorted
    /// under the direction, holding exactly the values the sources held.
    pub fn collect_all(&mut self) -> (out: Vec<u64>)
        requires
            old(self).wf(),
        ensures
            final(self).wf(),
            final(self).dir() == old(self).dir(),
            final(self).fulls() == old(self).fulls(),
            final(self)@.len() == old(self)@.len(),
            all_drained(final(self)@),
            sorted(old(self).dir(), out@),
            out@.to_set() == value_set(old(self)@),
    {
        let ghost orig = self@;
        let ghost dir = self.dir();
        let ghost fulls0 = self.fulls();
        let mut out: Vec<u64> = Vec::new();
        loop
            invariant
                self.wf(),
                self.dir() == dir,
                self.fulls() == fulls0,
                self@.len() == orig.len(),
                sorted(dir, out@),
                out@.to_set().union(value_set(self@)) == value_set(orig),
                forall|w: u64, k: int|
                    #[trigger] value_set(self@).contains(w) && 0 <= k < out@.len() ==> value_lt(
                        dir,
                        #[trigger] out@[k],
                        w,
                    ),
            ensures
                self.wf(),
                self.dir() == dir,
                self.fulls() == fulls0,
                self@.len() == orig.len(),
                all_drained(self@),
                sorted(dir, out@),
                out@.to_set() == value_set(orig),
            decreases total_len(self@),
        {
            let ghost pre = *self;
            let r = self.next();
            match r {
                Option::None => {
                    proof {
                        assert forall|w: u64| !value_set(self@).contains(w) by {
                            if value_set(self@).contains(w) {
                                let i = choose|i: int|
                                    0 <= i < self@.len() && #[trigger] self@[i].contains(w);
                                assert(self@[i].len() == 0);
                                assert(false);
                            }
                        }
                        assert(out@.to_set() =~= value_set(orig));
                    }
                    break;
                },
                Option::Some(v) => {
                    let ghost gout = out@;
                    out.push(v);
                    proof {
                        assert forall|j: int| 0 <= j < pre@.len() implies sorted(
                            dir,
                            #[trigger] pre@[j],
                        ) by {
                            assert(pre@[j] == pre.core.eff(j));
                        }
                        lemma_step_effect(dir, pre@, v);
                        assert(value_set(pre@).contains(v));
                        // v is later than everything already emitted
                        assert forall|a: int, b: int| 0 <= a < b < out@.len() implies value_lt(
                            dir,
                            out@[a],
                            out@[b],
                        ) by {
                            if b == out@.len() - 1 {
                                assert(value_lt(dir, gout[a], v));
                            }
                        }
                        gout.lemma_push_to_set_commute(v);
                        assert(out@.to_set() =~= gout.to_set().insert(v));
                        assert(out@.to_set().union(value_set(self@)) =~= value_set(orig));
                        // everything still held is later than everything emitted
                        assert forall|w: u64, k: int|
                            #[trigger] value_set(self@).contains(w) && 0 <= k
                                < out@.len() implies value_lt(dir, #[trigger] out@[k], w) by {
                            assert(value_lt(dir, v, w));
                            assert(value_set(pre@).contains(w));
                            if k < out@.len() - 1 {
                                assert(value_lt(dir, gout[k], w));
                            }
                        }
                        let ti = choose|ti: int| tied(pre@, v, ti);
                        lemma_after_step_total(pre@, v, ti);
                    }
                },
            }
        }
        out
    }

    /// Hands the sources back. After a full drain every one of them is
    /// exhausted: the engine pulled exactly what it needed.
    pub fn into_sources(self) -> (out: Vec<Source>)
        requires
            self.wf(),
        ensures
            out@.len() == self.fulls().len(),
            forall|i: int|
                0 <= i < out@.len() ==> (#[trigger] out@[i]).wf() && out@[i].full()
                    == self.fulls()[i],
            forall|i: int|
                0 <= i < out@.len() ==> (#[trigger] out@[i]).remaining() == if self@[i].len() > 0 {
                    self@[i].drop_first()
                } else {
                    Seq::<u64>::empty()
                },
            all_drained(self@) ==> forall|i: int|
                0 <= i < out@.len() ==> (#[trigger] out@[i]).remaining().len() == 0,
    {
        proof {
            assert forall|i: int| 0 <= i < self.core.sources.len() implies (
            #[trigger] self.core.sources[i]).remaining() == (if self@[i].len() > 0 {
                self@[i].drop_first()
            } else {
                Seq::<u64>::empty()
            }) by {
                assert(self@[i] == self.core.eff(i));
                if self@[i].len() > 0 {
                    assert(self.core.pending@[i] is Some);
                    assert(self@[i].drop_first() =~= self.core.sources[i].remaining());
                } else {
                    assert(self.core.sources[i].remaining() =~= Seq::<u64>::empty());
                }
            }
        }
        self.core.sources
    }
}

/// Merges the sources into one lazy engine under the order `dir`. Every
/// source must already be sorted and free of duplicates under that order.
pub fn merge_iters_by(sources: Vec<Source>, dir: Direction) -> (m: MergeIterator)
    requires
        forall|i: int|
            0 <= i < sources.len() ==> (#[trigger] sources[i]).wf() && sorted(
                dir,
                sources[i].remaining(),
            ),
    ensures
        m.wf(),
        m.dir() == dir,
        m@.len() == sources.len(),
        forall|i: int| 0 <= i < sources.len() ==> m@[i] == sources[i].remaining(),
        m.fulls().len() == sources.len(),
        forall|i: int| 0 <= i < sources.len() ==> m.fulls()[i] == sources[i].full(),
{
    MergeIterator { core: MergeCore::init(sources, dir) }
}

/// Merges the sources under the natural ascending order of `u64`.
pub fn merge_iters(sources: Vec<Source>) -> (m: MergeIterator)
    requires
        forall|i: int|
            0 <= i < sources.len() ==> (#[trigger] sources[i]).wf() && sorted(
                Direction::Ascending,
                sources[i].remaining(),
            ),
    ensures
        m.wf(),
        m.dir() == Direction::Ascending,
        m@.len() == sources.len(),
        forall|i: int| 0 <= i < sources.len() ==> m@[i] == sources[i].remaining(),
        m.fulls().len() == sources.len(),
        forall|i: int| 0 <= i < sources.len() ==> m.fulls()[i] == sources[i].full(),
{
    merge_iters_by(sources, Direction::Ascending)
}

} // verus!
