//! A source sequence: a caller-supplied run of values that the engines drain
//! from the front, one value at a time.

use vstd::prelude::*;

verus! {

/// One input sequence of a merge, drained from the front. The engines identify
/// a source by its position in the collection handed to them.
pub struct Source {
    items: Vec<u64>,
    pos: usize,
}

impl Source {
    /// The cursor never runs past the end.
    pub closed spec fn wf(self) -> bool {
        self.pos <= self.items.len()
    }

    /// The values not yet drained, in order.
    pub closed spec fn remaining(self) -> Seq<u64> {
        self.items@.skip(self.pos as int)
    }

    /// Every value the source was created with, drained or not.
    pub closed spec fn full(self) -> Seq<u64> {
        self.items@
    }

    /// A fresh source over `items`, nothing drained yet.
    pub fn new(items: Vec<u64>) -> (s: Source)
        ensures
            s.wf(),
            s.remaining() == items@,
            s.full() == items@,
    {
        let s = Source { items, pos: 0 };
        proof {
            assert(s.remaining() =~= s.items@);
        }
        s
    }

    /// Drains and returns the front value, or reports exhaustion.
    pub fn next(&mut self) -> (r: Option<u64>)
        requires
            old(self).wf(),
        ensures
            final(self).wf(),
            final(self).full() == old(self).full(),
            match r {
                Option::Some(v) => old(self).remaining().len() > 0 && v == old(
                    self,
                ).remaining()[0] && final(self).remaining() == old(self).remaining().drop_first(),
                Option::None => old(self).remaining().len() == 0 && *final(self) == *old(self),
            },
    {
        if self.pos < self.items.len() {
            let v = self.items[self.pos];
            self.pos = self.pos + 1;
            proof {
                assert(self.remaining() =~= old(self).remaining().drop_first());
            }
            Some(v)
        } else {
            None
        }
    }
}

} // verus!
