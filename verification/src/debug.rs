//! A mapping from chunk byte offsets to source line numbers.
//!
//! Run-length compressed for fast appends: a pair is recorded only where
//! the line changes, so recorded offsets increase strictly and recorded
//! lines increase with them.  Lookups walk the pairs and are used only on
//! error paths.

use vstd::prelude::*;

verus! {

pub struct LineMap {
    pairs: Vec<(usize, usize)>,
}

/// Well-formedness: offsets strictly increasing, lines strictly
/// increasing (a pair is only recorded when the line changes).
pub open spec fn pairs_wf(pairs: Seq<(usize, usize)>) -> bool {
    forall|i: int, j: int|
        0 <= i < j < pairs.len() ==> (#[trigger] pairs[i]).0 < (#[trigger] pairs[j]).0
            && pairs[i].1 < pairs[j].1
}

/// The line of the last recorded pair whose offset is at most `offset`,
/// or 0 when there is none.
pub open spec fn spec_get_line(pairs: Seq<(usize, usize)>, offset: int) -> usize
    decreases pairs.len(),
{
    if pairs.len() == 0 {
        0
    } else if pairs.last().0 <= offset {
        pairs.last().1
    } else {
        spec_get_line(pairs.drop_last(), offset)
    }
}

/// What one `add` call records.
pub open spec fn spec_add(pairs: Seq<(usize, usize)>, offset: usize, line: usize) -> Seq<
    (usize, usize),
> {
    if pairs.len() == 0 {
        seq![(offset, line)]
    } else if line == pairs.last().1 {
        pairs
    } else {
        pairs.push((offset, line))
    }
}

impl View for LineMap {
    type V = Seq<(usize, usize)>;

    closed spec fn view(&self) -> Seq<(usize, usize)> {
        self.pairs@
    }
}

impl Default for LineMap {
    fn default() -> (r: LineMap)
        ensures
            r@ == Seq::<(usize, usize)>::empty(),
    {
        LineMap { pairs: Vec::new() }
    }
}

impl LineMap {
    pub open spec fn wf(&self) -> bool {
        pairs_wf(self@)
    }

    fn push(&mut self, offset: usize, line: usize)
        ensures
            final(self)@ == old(self)@.push((offset, line)),
    {
        self.pairs.push((offset, line));
    }

    /// Records the pair, unless the line is unchanged from the last
    /// recorded pair.  Callers hand in offsets and lines that only grow.
    pub fn add(&mut self, offset: usize, line: usize)
        requires
            old(self).wf(),
            old(self)@.len() > 0 ==> offset > old(self)@.last().0 && line >= old(self)@.last().1,
        ensures
            final(self).wf(),
            final(self)@ == spec_add(old(self)@, offset, line),
            final(self)@.len() > 0,
            final(self)@.last().1 <= line,
            spec_get_line(final(self)@, offset as int) == if old(self)@.len() == 0 || line != old(
                self,
            )@.last().1 {
                line
            } else {
                spec_get_line(old(self)@, offset as int)
            },
    {
        let len = self.pairs.len();

        if len == 0 {
            self.push(offset, line);
            return ;
        }

        if line == self.pairs[len - 1].1 {
            return ;
        }

        self.push(offset, line);
        proof {
            assert forall|i: int, j: int| 0 <= i < j < self@.len() implies (
            #[trigger] self@[i]).0 < (#[trigger] self@[j]).0 && self@[i].1 < self@[j].1 by {
                if j < self@.len() - 1 {
                    assert(pairs_wf(old(self)@));
                } else {
                    if i < self@.len() - 2 {
                        assert(old(self)@[i].0 < old(self)@[old(self)@.len() - 1].0);
                        assert(old(self)@[i].1 < old(self)@[old(self)@.len() - 1].1);
                    }
                }
            }
        }
    }

    /// The source line recorded for a byte offset.
    pub fn get_line(&self, offset: usize) -> (line: usize)
        ensures
            line == spec_get_line(self@, offset as int),
    {
        let mut i = self.pairs.len();
        proof {
            assert(self@.take(self.pairs.len() as int) =~= self@);
        }
        loop
            invariant
                i <= self.pairs.len(),
                spec_get_line(self@.take(i as int), offset as int) == spec_get_line(
                    self@,
                    offset as int,
                ),
            decreases i,
        {
            if i == 0 {
                return 0;
            }
            i = i - 1;
            proof {
                assert(self@.take(i as int + 1).drop_last() =~= self@.take(i as int));
                assert(self@.take(i as int + 1).last() == self@[i as int]);
            }
            if self.pairs[i].0 <= offset {
                return self.pairs[i].1;
            }
        }
    }
}

/// Pairs are recorded with strictly increasing offsets, and the
/// looked-up line never decreases as the offset grows.
pub proof fn lemma_get_line_monotonic(pairs: Seq<(usize, usize)>, k1: int, k2: int)
    requires
        pairs_wf(pairs),
        k1 <= k2,
    ensures
        spec_get_line(pairs, k1) <= spec_get_line(pairs, k2),
    decreases pairs.len(),
{
    if pairs.len() > 0 {
        assert(pairs_wf(pairs.drop_last())) by {
            assert forall|i: int, j: int| 0 <= i < j < pairs.drop_last().len() implies (
            #[trigger] pairs.drop_last()[i]).0 < (#[trigger] pairs.drop_last()[j]).0
                && pairs.drop_last()[i].1 < pairs.drop_last()[j].1 by {
                assert(pairs[i].0 < pairs[j].0 && pairs[i].1 < pairs[j].1);
            }
        }
        if pairs.last().0 <= k1 {
        } else if pairs.last().0 <= k2 {
            lemma_get_line_le_last(pairs, k1);
        } else {
            lemma_get_line_monotonic(pairs.drop_last(), k1, k2);
        }
    }
}

/// The looked-up line never exceeds the last recorded line.
proof fn lemma_get_line_le_last(pairs: Seq<(usize, usize)>, k: int)
    requires
        pairs_wf(pairs),
        pairs.len() > 0,
    ensures
        spec_get_line(pairs, k) <= pairs.last().1,
    decreases pairs.len(),
{
    if pairs.last().0 <= k {
    } else if pairs.len() == 1 {
        assert(pairs.drop_last().len() == 0);
        assert(spec_get_line(pairs.drop_last(), k) == 0);
    } else {
        assert(pairs_wf(pairs.drop_last())) by {
            assert forall|i: int, j: int| 0 <= i < j < pairs.drop_last().len() implies (
            #[trigger] pairs.drop_last()[i]).0 < (#[trigger] pairs.drop_last()[j]).0
                && pairs.drop_last()[i].1 < pairs.drop_last()[j].1 by {
                assert(pairs[i].0 < pairs[j].0 && pairs[i].1 < pairs[j].1);
            }
        }
        lemma_get_line_le_last(pairs.drop_last(), k);
        assert(pairs.drop_last().last() == pairs[pairs.len() - 2]);
        assert(pairs[pairs.len() - 2].1 < pairs.last().1);
    }
}

} // verus!
