//! Consistency of the final order with the decisions.
//!
//! The engine never adjudicates: whichever side a decision names is taken as
//! ground truth. This module proves what that buys when the decision source
//! is itself coherent: if every decision of a session agrees with one
//! transitive order on the pair it answers, the final order is sorted by
//! that order — so an item consistently preferred over another ends up ahead
//! of it.

use crate::model::RankState;
use crate::model::init_state;
use crate::model::lemma_step_wf;
use crate::model::run_decisions;
use vstd::prelude::*;

verus! {

/// `s` is sorted by `leq`: every earlier item relates to every later one.
pub open spec fn sorted_by<T>(s: Seq<T>, leq: spec_fn(T, T) -> bool) -> bool {
    forall|i: int, j: int| 0 <= i < j < s.len() ==> #[trigger] leq(s[i], s[j])
}

/// `leq` is transitive.
pub open spec fn transitive<T>(leq: spec_fn(T, T) -> bool) -> bool {
    forall|a: T, b: T, c: T|
        #![trigger leq(a, b), leq(b, c)]
        leq(a, b) && leq(b, c) ==> leq(a, c)
}

/// `x` relates to every item of `run`.
pub open spec fn below_all<T>(x: T, run: Seq<T>, leq: spec_fn(T, T) -> bool) -> bool {
    forall|k: int| 0 <= k < run.len() ==> #[trigger] leq(x, run[k])
}

/// The invariant a coherent session maintains: every queued run and the
/// accumulator are sorted, and while a merge is in progress every already
/// committed item relates to everything still in the two active runs.
pub open spec fn merge_inv<T>(s: RankState<T>, leq: spec_fn(T, T) -> bool) -> bool {
    &&& forall|i: int| 0 <= i < s.runs.len() ==> sorted_by(#[trigger] s.runs[i], leq)
    &&& sorted_by(s.pending, leq)
    &&& s.runs.len() >= 2 ==> forall|j: int|
        0 <= j < s.pending.len() ==> below_all(#[trigger] s.pending[j], s.runs[0], leq)
            && below_all(s.pending[j], s.runs[1], leq)
}

/// Every decision of `ds`, taken from `s` on, answers the comparison pair it
/// faces as `leq` orders that pair.
pub open spec fn consistent_decisions<T>(
    s: RankState<T>,
    ds: Seq<bool>,
    leq: spec_fn(T, T) -> bool,
) -> bool
    decreases ds.len(),
{
    ds.len() == 0 || {
        &&& !s.ranked() ==> (if ds[0] {
            leq(s.runs[0][0], s.runs[1][0])
        } else {
            leq(s.runs[1][0], s.runs[0][0])
        })
        &&& consistent_decisions(s.step(ds[0]), ds.drop_first(), leq)
    }
}

/// One decision that agrees with `leq` keeps the merge invariant.
proof fn lemma_step_consistent<T>(s: RankState<T>, d: bool, leq: spec_fn(T, T) -> bool)
    requires
        s.wf(),
        transitive(leq),
        merge_inv(s, leq),
        !s.ranked() ==> (if d {
            leq(s.runs[0][0], s.runs[1][0])
        } else {
            leq(s.runs[1][0], s.runs[0][0])
        }),
    ensures
        merge_inv(s.step(d), leq),
{
    if !s.ranked() {
        let t = s.step(d);
        let l = s.runs[0];
        let r = s.runs[1];
        // The run the preferred item heads, and the other run of the pair.
        let w = if d { l } else { r };
        let o = if d { r } else { l };
        let x = w[0];
        let p = s.pending.push(x);
        assert(sorted_by(l, leq));
        assert(sorted_by(r, leq));
        assert(leq(x, o[0]));
        assert(below_all(x, w.skip(1), leq)) by {
            assert forall|k: int| 0 <= k < w.skip(1).len() implies #[trigger] leq(
                x,
                w.skip(1)[k],
            ) by {
                assert(w.skip(1)[k] == w[k + 1]);
            }
        }
        assert(below_all(x, o, leq)) by {
            assert forall|k: int| 0 <= k < o.len() implies #[trigger] leq(x, o[k]) by {
                if k > 0 {
                    assert(leq(o[0], o[k]));
                }
            }
        }
        assert(sorted_by(p, leq)) by {
            assert forall|i: int, j: int| 0 <= i < j < p.len() implies #[trigger] leq(
                p[i],
                p[j],
            ) by {
                if j < s.pending.len() {
                } else {
                    assert(p[j] == x);
                    assert(below_all(s.pending[i], w, leq));
                    assert(leq(s.pending[i], w[0]));
                }
            }
        }
        assert forall|j: int| 0 <= j < p.len() implies below_all(#[trigger] p[j], w.skip(1), leq)
            && below_all(p[j], o, leq) by {
            if j < s.pending.len() {
                assert(below_all(s.pending[j], w, leq));
                assert(below_all(s.pending[j], o, leq));
                assert forall|k: int| 0 <= k < w.skip(1).len() implies #[trigger] leq(
                    p[j],
                    w.skip(1)[k],
                ) by {
                    assert(w.skip(1)[k] == w[k + 1]);
                    assert(leq(s.pending[j], w[k + 1]));
                }
            } else {
                assert(p[j] == x);
            }
        }
        if w.len() == 1 {
            // The merge completes: the accumulator plus the rest of the other
            // run is the new, fully sorted run at the back of the queue.
            let c = p + o;
            assert(sorted_by(c, leq)) by {
                assert forall|i: int, j: int| 0 <= i < j < c.len() implies #[trigger] leq(
                    c[i],
                    c[j],
                ) by {
                    if j < p.len() {
                    } else if i >= p.len() {
                        assert(c[i] == o[i - p.len()]);
                        assert(c[j] == o[j - p.len()]);
                    } else {
                        assert(c[i] == p[i]);
                        assert(c[j] == o[j - p.len()]);
                        assert(below_all(p[i], o, leq));
                    }
                }
            }
            assert forall|i: int| 0 <= i < t.runs.len() implies sorted_by(
                #[trigger] t.runs[i],
                leq,
            ) by {
                if i < t.runs.len() - 1 {
                    assert(t.runs[i] == s.runs[i + 2]);
                    assert(sorted_by(s.runs[i + 2], leq));
                } else {
                    assert(t.runs[i] == c);
                }
            }
        } else {
            assert(sorted_by(w.skip(1), leq)) by {
                assert forall|i: int, j: int| 0 <= i < j < w.skip(1).len() implies #[trigger] leq(
                    w.skip(1)[i],
                    w.skip(1)[j],
                ) by {
                    assert(w.skip(1)[i] == w[i + 1]);
                    assert(w.skip(1)[j] == w[j + 1]);
                }
            }
            assert forall|i: int| 0 <= i < t.runs.len() implies sorted_by(
                #[trigger] t.runs[i],
                leq,
            ) by {
                if d {
                    if i != 0 {
                        assert(t.runs[i] == s.runs[i]);
                    }
                } else {
                    if i != 1 {
                        assert(t.runs[i] == s.runs[i]);
                    }
                }
            }
            assert(t.runs[0] == if d { w.skip(1) } else { o });
            assert(t.runs[1] == if d { o } else { w.skip(1) });
            assert forall|j: int| 0 <= j < t.pending.len() implies below_all(
                #[trigger] t.pending[j],
                t.runs[0],
                leq,
            ) && below_all(t.pending[j], t.runs[1], leq) by {
                assert(t.pending[j] == p[j]);
                assert(below_all(p[j], w.skip(1), leq));
                assert(below_all(p[j], o, leq));
            }
        }
    }
}

/// A whole sequence of decisions that agree with `leq` keeps the merge
/// invariant.
proof fn lemma_run_decisions_consistent<T>(s: RankState<T>, ds: Seq<bool>, leq: spec_fn(T, T) -> bool)
    requires
        s.wf(),
        transitive(leq),
        merge_inv(s, leq),
        consistent_decisions(s, ds, leq),
    ensures
        merge_inv(run_decisions(s, ds), leq),
    decreases ds.len(),
{
    if ds.len() > 0 {
        lemma_step_wf(s, ds[0]);
        lemma_step_consistent(s, ds[0], leq);
        lemma_run_decisions_consistent(s.step(ds[0]), ds.drop_first(), leq);
    }
}

/// Local consistency, in the form in which it holds: if every decision of a
/// session agrees with one transitive order `leq` on the pair it answers,
/// then the final order is sorted by `leq` — any item that `leq` puts ahead
/// of another, and that the decisions therefore always preferred whenever
/// the two met, appears ahead of it in the result.
pub proof fn lemma_consistent_decisions_sort<T>(
    items: Seq<T>,
    ds: Seq<bool>,
    leq: spec_fn(T, T) -> bool,
)
    requires
        transitive(leq),
        consistent_decisions(init_state(items), ds, leq),
        run_decisions(init_state(items), ds).ranked(),
    ensures
        sorted_by(run_decisions(init_state(items), ds).final_order(), leq),
{
    let s = init_state(items);
    crate::model::lemma_init_state(items);
    assert(merge_inv(s, leq)) by {
        assert forall|i: int| 0 <= i < s.runs.len() implies sorted_by(#[trigger] s.runs[i], leq) by {
            assert(s.runs[i] == seq![items[i]]);
            assert(s.runs[i].len() == 1);
        }
    }
    lemma_run_decisions_consistent(s, ds, leq);
    let t = run_decisions(s, ds);
    if t.runs.len() > 0 {
        assert(sorted_by(t.runs[0], leq));
    }
}

} // verus!
