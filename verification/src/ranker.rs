//! The interactive merge-sort ranking engine.
//!
//! A bottom-up, queue-based merge sort whose comparison function is an
//! external decision: the engine exposes the current comparison pair through
//! [`MergeSortRanker::peek_left`] / [`MergeSortRanker::peek_right`] and is
//! advanced one decision at a time through
//! [`MergeSortRanker::record_left_preferred`] /
//! [`MergeSortRanker::record_right_preferred`], until a single run remains.
//! Every operation is specified against the abstract [`RankState`] model.

use crate::model::RankState;
use crate::model::init_state;
use std::collections::VecDeque;
use vstd::prelude::*;

verus! {

/// The ranking engine: a FIFO queue of runs awaiting merging, and the
/// accumulator of the merge in progress. Generic over the item type, which
/// it never inspects: items are only moved, and the two items currently in
/// contention are exposed by reference.
pub struct MergeSortRanker<T> {
    to_merge: VecDeque<VecDeque<T>>,
    merged: VecDeque<T>,
}

impl<T> View for MergeSortRanker<T> {
    type V = RankState<T>;

    closed spec fn view(&self) -> RankState<T> {
        RankState {
            runs: self.to_merge@.map(|i: int, r: VecDeque<T>| r@),
            pending: self.merged@,
        }
    }
}

impl<T> MergeSortRanker<T> {
    /// Wraps each input item as its own singleton run and enqueues all of
    /// them in input order. With zero or one item the engine is ranked
    /// immediately.
    pub fn new(to_rank: Vec<T>) -> (engine: Self)
        ensures
            engine@ == init_state::<T>(to_rank@),
            engine@.wf(),
    {
        let ghost items = to_rank@;
        let mut rest = to_rank;
        let mut to_merge: VecDeque<VecDeque<T>> = VecDeque::new();
        while rest.len() > 0
            invariant
                to_merge@.len() + rest@.len() == items.len(),
                rest@ == items.skip(to_merge@.len() as int),
                forall|j: int|
                    0 <= j < to_merge@.len() ==> (#[trigger] to_merge@[j])@ == seq![items[j]],
            decreases rest@.len(),
        {
            let ghost n = to_merge@.len() as int;
            let item = rest.remove(0);
            proof {
                assert(item == items[n]);
                assert(rest@ =~= items.skip(n + 1));
            }
            let mut single: VecDeque<T> = VecDeque::new();
            single.push_back(item);
            to_merge.push_back(single);
        }
        let engine = MergeSortRanker { to_merge, merged: VecDeque::new() };
        proof {
            assert(engine@.runs =~~= init_state::<T>(items).runs);
            assert(engine@ =~~= init_state::<T>(items));
        }
        engine
    }

    /// True iff at most one run remains, i.e. the cumulative decisions have
    /// determined one total order.
    pub fn is_ranked(&self) -> (r: bool)
        ensures
            r == self@.ranked(),
    {
        self.to_merge.len() <= 1
    }

    /// The front item of the first queued run: the left half of the current
    /// comparison pair. Absent once ranked. Takes `&self`: peeking never
    /// changes the state.
    pub fn peek_left(&self) -> (r: Option<&T>)
        requires
            self@.wf(),
        ensures
            match r {
                Some(item) => !self@.ranked() && *item == self@.runs[0][0],
                None => self@.ranked(),
            },
    {
        if self.to_merge.len() >= 2 {
            proof {
                assert(self@.runs[0] == self.to_merge@[0]@);
                assert(self@.runs[0].len() > 0);
            }
            Some(&self.to_merge[0][0])
        } else {
            None
        }
    }

    /// The front item of the second queued run: the right half of the
    /// current comparison pair. Absent once ranked.
    pub fn peek_right(&self) -> (r: Option<&T>)
        requires
            self@.wf(),
        ensures
            match r {
                Some(item) => !self@.ranked() && *item == self@.runs[1][0],
                None => self@.ranked(),
            },
    {
        if self.to_merge.len() >= 2 {
            proof {
                assert(self@.runs[1] == self.to_merge@[1]@);
                assert(self@.runs[1].len() > 0);
            }
            Some(&self.to_merge[1][0])
        } else {
            None
        }
    }

    /// Records that the left item of the comparison pair is preferred: it is
    /// committed to the accumulator, and if its run is thereby emptied the
    /// merge completes. A no-op once ranked. The post-state is exactly
    /// [`RankState::step_left`] of the prior state: a function of the prior
    /// state and the decision alone.
    pub fn record_left_preferred(&mut self)
        requires
            old(self)@.wf(),
        ensures
            final(self)@ == old(self)@.step_left(),
            final(self)@.wf(),
    {
        proof {
            crate::model::lemma_step_wf(old(self)@, true);
        }
        if self.to_merge.len() >= 2 {
            let ghost s = self@;
            let mut left_run = self.to_merge.pop_front().unwrap();
            let item = left_run.pop_front().unwrap();
            self.merged.push_back(item);
            if left_run.len() == 0 {
                let mut right_run = self.to_merge.pop_front().unwrap();
                self.merged.append(&mut right_run);
                let mut done: VecDeque<T> = VecDeque::new();
                core::mem::swap(&mut done, &mut self.merged);
                self.to_merge.push_back(done);
                proof {
                    assert(self@.runs =~~= s.step_left().runs);
                    assert(self@ =~~= s.step_left());
                }
            } else {
                self.to_merge.push_front(left_run);
                proof {
                    assert(self@.runs =~~= s.step_left().runs);
                    assert(self@ =~~= s.step_left());
                }
            }
        }
    }

    /// Records that the right item of the comparison pair is preferred,
    /// symmetric to [`MergeSortRanker::record_left_preferred`].
    pub fn record_right_preferred(&mut self)
        requires
            old(self)@.wf(),
        ensures
            final(self)@ == old(self)@.step_right(),
            final(self)@.wf(),
    {
        proof {
            crate::model::lemma_step_wf(old(self)@, false);
        }
        if self.to_merge.len() >= 2 {
            let ghost s = self@;
            let mut first_run = self.to_merge.pop_front().unwrap();
            let mut right_run = self.to_merge.pop_front().unwrap();
            let item = right_run.pop_front().unwrap();
            self.merged.push_back(item);
            if right_run.len() == 0 {
                self.merged.append(&mut first_run);
                let mut done: VecDeque<T> = VecDeque::new();
                core::mem::swap(&mut done, &mut self.merged);
                self.to_merge.push_back(done);
                proof {
                    assert(self@.runs =~~= s.step_right().runs);
                    assert(self@ =~~= s.step_right());
                }
            } else {
                self.to_merge.push_front(right_run);
                self.to_merge.push_front(first_run);
                proof {
                    assert(self@.runs =~~= s.step_right().runs);
                    assert(self@ =~~= s.step_right());
                }
            }
        }
    }

    /// Consumes a ranked engine and yields the final total order; absent if
    /// more than one run remains. With no items at all, the order is empty.
    pub fn finalize(self) -> (r: Option<Vec<T>>)
        requires
            self@.wf(),
        ensures
            match r {
                Some(order) => self@.ranked() && order@ == self@.final_order(),
                None => !self@.ranked(),
            },
    {
        let mut engine = self;
        if engine.to_merge.len() == 0 {
            Some(Vec::new())
        } else if engine.to_merge.len() == 1 {
            let mut run = engine.to_merge.pop_front().unwrap();
            let ghost full = run@;
            let mut order: Vec<T> = Vec::new();
            while run.len() > 0
                invariant
                    order@ + run@ == full,
                decreases run@.len(),
            {
                let item = run.pop_front().unwrap();
                order.push(item);
                proof {
                    assert(order@ + run@ =~= full);
                }
            }
            proof {
                assert(order@ =~= full);
            }
            Some(order)
        } else {
            None
        }
    }
}

} // verus!
