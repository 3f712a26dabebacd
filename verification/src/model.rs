//! Mathematical model of the ranking engine.
//!
//! The engine's state is abstracted as a [`RankState`]: a FIFO queue of runs
//! (each run a sequence of items already in final relative order) together
//! with the active merge accumulator. Every executable operation of the
//! engine is specified as a pure function on this state, so that the whole
//! interactive ranking session is, at the specification level, a fold of
//! decisions over [`RankState::step`].

use vstd::multiset::Multiset;
use vstd::multiset::group_multiset_axioms;
use vstd::prelude::*;
use vstd::seq_lib::group_to_multiset_ensures;
use vstd::seq_lib::lemma_multiset_commutative;

verus! {

/// Abstract engine state: the run queue (front first) and the active merge
/// accumulator holding the partially built run of the merge in progress.
#[verifier::ext_equal]
pub struct RankState<T> {
    /// Runs awaiting merging, in FIFO order. The two runs at the front are
    /// the active merge pair; their front items are the comparison pair.
    pub runs: Seq<Seq<T>>,
    /// Items already committed by decisions of the merge in progress, in
    /// final relative order. Empty whenever no merge is in progress.
    pub pending: Seq<T>,
}

impl<T> RankState<T> {
    /// Terminal state: at most one run remains.
    pub open spec fn ranked(self) -> bool {
        self.runs.len() <= 1
    }

    /// Well-formedness: every queued run is nonempty, and the accumulator is
    /// empty once the state is ranked.
    pub open spec fn wf(self) -> bool {
        &&& forall|i: int| 0 <= i < self.runs.len() ==> (#[trigger] self.runs[i]).len() > 0
        &&& self.ranked() ==> self.pending.len() == 0
    }

    /// Effect of one "left preferred" decision: the front item of the first
    /// run is committed to the accumulator; if that empties the first run,
    /// the rest of the second run follows it, both source runs leave the
    /// queue and the completed run is enqueued at the back. A no-op once
    /// ranked.
    pub open spec fn step_left(self) -> Self {
        if self.ranked() {
            self
        } else {
            let l = self.runs[0];
            let r = self.runs[1];
            let p = self.pending.push(l[0]);
            if l.len() == 1 {
                RankState { runs: self.runs.skip(2).push(p + r), pending: Seq::empty() }
            } else {
                RankState { runs: self.runs.update(0, l.skip(1)), pending: p }
            }
        }
    }

    /// Effect of one "right preferred" decision, symmetric to `step_left`.
    pub open spec fn step_right(self) -> Self {
        if self.ranked() {
            self
        } else {
            let l = self.runs[0];
            let r = self.runs[1];
            let p = self.pending.push(r[0]);
            if r.len() == 1 {
                RankState { runs: self.runs.skip(2).push(p + l), pending: Seq::empty() }
            } else {
                RankState { runs: self.runs.update(1, r.skip(1)), pending: p }
            }
        }
    }

    /// One decision: `true` means the left item was preferred.
    pub open spec fn step(self, left_preferred: bool) -> Self {
        if left_preferred {
            self.step_left()
        } else {
            self.step_right()
        }
    }

    /// The total order a ranked state represents: the single remaining run,
    /// or the empty sequence if no item was ever given.
    pub open spec fn final_order(self) -> Seq<T> {
        if self.runs.len() == 0 {
            Seq::empty()
        } else {
            self.runs[0]
        }
    }

    /// Every item the state holds, with multiplicity: the items of all queued
    /// runs together with the accumulator's.
    pub open spec fn items(self) -> Multiset<T> {
        runs_items(self.runs).add(self.pending.to_multiset())
    }
}

/// The state an engine starts from: one singleton run per input item, in
/// input order, and an empty accumulator.
pub open spec fn init_state<T>(items: Seq<T>) -> RankState<T> {
    RankState { runs: items.map(|i: int, x: T| seq![x]), pending: Seq::empty() }
}

/// All items held by a queue of runs, with multiplicity.
pub open spec fn runs_items<T>(runs: Seq<Seq<T>>) -> Multiset<T>
    decreases runs.len(),
{
    if runs.len() == 0 {
        Multiset::empty()
    } else {
        runs[0].to_multiset().add(runs_items(runs.drop_first()))
    }
}

/// One decision preserves well-formedness: every queued run stays nonempty,
/// and the accumulator is emptied exactly when a merge completes.
pub proof fn lemma_step_wf<T>(s: RankState<T>, left_preferred: bool)
    requires
        s.wf(),
    ensures
        s.step(left_preferred).wf(),
{
    if !s.ranked() {
        let t = s.step(left_preferred);
        let l = s.runs[0];
        let r = s.runs[1];
        assert forall|i: int| 0 <= i < t.runs.len() implies (#[trigger] t.runs[i]).len() > 0 by {
            if left_preferred {
                if l.len() == 1 {
                    if i < t.runs.len() - 1 {
                        assert(t.runs[i] == s.runs[i + 2]);
                    }
                } else {
                    if i != 0 {
                        assert(t.runs[i] == s.runs[i]);
                    }
                }
            } else {
                if r.len() == 1 {
                    if i < t.runs.len() - 1 {
                        assert(t.runs[i] == s.runs[i + 2]);
                    }
                } else {
                    if i != 1 {
                        assert(t.runs[i] == s.runs[i]);
                    }
                }
            }
        }
    }
}

/// The state reached from `s` by a whole sequence of decisions, first
/// decision first. Being a pure function of the start state and the
/// decisions, it fixes the outcome of a session: no hidden input enters.
pub open spec fn run_decisions<T>(s: RankState<T>, ds: Seq<bool>) -> RankState<T>
    decreases ds.len(),
{
    if ds.len() == 0 {
        s
    } else {
        run_decisions(s.step(ds[0]), ds.drop_first())
    }
}

proof fn lemma_runs_items_push<T>(runs: Seq<Seq<T>>, run: Seq<T>)
    ensures
        runs_items(runs.push(run)) == runs_items(runs).add(run.to_multiset()),
    decreases runs.len(),
{
    broadcast use group_multiset_axioms;

    if runs.len() == 0 {
        assert(runs.push(run)[0] == run);
        assert(runs.push(run).drop_first() =~= runs);
        assert(runs_items(runs.push(run)) == run.to_multiset().add(runs_items(runs)));
        assert(runs_items(runs.push(run)) =~= runs_items(runs).add(run.to_multiset()));
    } else {
        lemma_runs_items_push(runs.drop_first(), run);
        assert(runs.push(run).drop_first() =~= runs.drop_first().push(run));
        assert(runs.push(run)[0] == runs[0]);
        assert(runs_items(runs.push(run)) == runs[0].to_multiset().add(
            runs_items(runs.drop_first().push(run)),
        ));
        assert(runs_items(runs.drop_first().push(run)) == runs_items(runs.drop_first()).add(
            run.to_multiset(),
        ));
        assert(runs_items(runs.push(run)) =~= runs_items(runs).add(run.to_multiset()));
    }
}

proof fn lemma_runs_items_front_two<T>(runs: Seq<Seq<T>>)
    requires
        runs.len() >= 2,
    ensures
        runs_items(runs) == runs[0].to_multiset().add(runs[1].to_multiset()).add(
            runs_items(runs.skip(2)),
        ),
{
    broadcast use group_multiset_axioms;

    assert(runs.drop_first()[0] == runs[1]);
    assert(runs.drop_first().drop_first() =~= runs.skip(2));
    assert(runs_items(runs) == runs[0].to_multiset().add(runs_items(runs.drop_first())));
    assert(runs_items(runs.drop_first()) == runs[1].to_multiset().add(runs_items(runs.skip(2))));
    assert(runs_items(runs) =~= runs[0].to_multiset().add(runs[1].to_multiset()).add(
        runs_items(runs.skip(2)),
    ));
}

/// A nonempty run holds its front item once, beside the items of its tail.
proof fn lemma_run_front_split<T>(run: Seq<T>)
    requires
        run.len() > 0,
    ensures
        run.to_multiset() == run.skip(1).to_multiset().insert(run[0]),
{
    broadcast use group_multiset_axioms, group_to_multiset_ensures;

    assert(run.remove(0) =~= run.skip(1));
    assert(run.contains(run[0]));
    assert(run.skip(1).to_multiset().insert(run[0]) =~= run.to_multiset());
}

/// One decision moves items around but neither drops nor duplicates any.
pub proof fn lemma_step_items<T>(s: RankState<T>, left_preferred: bool)
    requires
        s.wf(),
    ensures
        s.step(left_preferred).items() == s.items(),
{
    broadcast use group_multiset_axioms, group_to_multiset_ensures;

    if !s.ranked() {
        let l = s.runs[0];
        let r = s.runs[1];
        let t = s.step(left_preferred);
        lemma_runs_items_front_two(s.runs);
        assert(Seq::<T>::empty().to_multiset() =~= Multiset::<T>::empty());
        if left_preferred {
            let p = s.pending.push(l[0]);
            lemma_run_front_split(l);
            if l.len() == 1 {
                lemma_runs_items_push(s.runs.skip(2), p + r);
                lemma_multiset_commutative(p, r);
                assert(l.skip(1) =~= Seq::<T>::empty());
                assert(t.items() =~= s.items());
            } else {
                assert(s.runs.update(0, l.skip(1)).drop_first() =~= s.runs.drop_first());
                assert(s.runs.update(0, l.skip(1))[0] == l.skip(1));
                assert(runs_items(s.runs) == l.to_multiset().add(runs_items(s.runs.drop_first())));
                assert(runs_items(t.runs) == l.skip(1).to_multiset().add(
                    runs_items(s.runs.drop_first()),
                ));
                assert(t.items() =~= s.items());
            }
        } else {
            let p = s.pending.push(r[0]);
            lemma_run_front_split(r);
            if r.len() == 1 {
                lemma_runs_items_push(s.runs.skip(2), p + l);
                lemma_multiset_commutative(p, l);
                assert(r.skip(1) =~= Seq::<T>::empty());
                assert(t.items() =~= s.items());
            } else {
                assert(s.runs.update(1, r.skip(1)).drop_first() =~= s.runs.drop_first().update(
                    0,
                    r.skip(1),
                ));
                assert(s.runs.update(1, r.skip(1))[0] == l);
                lemma_runs_items_front_two(s.runs.update(1, r.skip(1)));
                assert(s.runs.update(1, r.skip(1)).skip(2) =~= s.runs.skip(2));
                assert(s.runs.update(1, r.skip(1))[1] == r.skip(1));
                assert(t.items() =~= s.items());
            }
        }
    }
}

/// The starting state is well-formed, holds exactly the input items, and has
/// one singleton run per input item.
pub proof fn lemma_init_state<T>(items: Seq<T>)
    ensures
        init_state(items).wf(),
        init_state(items).items() == items.to_multiset(),
        init_state(items).runs.len() == items.len(),
    decreases items.len(),
{
    broadcast use group_multiset_axioms, group_to_multiset_ensures;

    let s = init_state(items);
    assert(Seq::<T>::empty().to_multiset() =~= Multiset::<T>::empty());
    if items.len() == 0 {
        assert(s.runs =~= Seq::<Seq<T>>::empty());
        assert(items.to_multiset() =~= Multiset::<T>::empty());
    } else {
        lemma_init_state(items.drop_first());
        lemma_run_front_split(items);
        assert(items.drop_first() =~= items.skip(1));
        assert(s.runs.drop_first() =~~= init_state(items.drop_first()).runs);
        assert(s.runs[0] == seq![items[0]]);
        assert(seq![items[0]] =~= Seq::<T>::empty().push(items[0]));
        assert(runs_items(s.runs) == seq![items[0]].to_multiset().add(
            runs_items(s.runs.drop_first()),
        ));
        assert(s.items() =~= items.to_multiset());
    }
}

/// A whole decision sequence keeps the state well-formed and the items
/// unchanged as a multiset.
pub proof fn lemma_run_decisions_wf_items<T>(s: RankState<T>, ds: Seq<bool>)
    requires
        s.wf(),
    ensures
        run_decisions(s, ds).wf(),
        run_decisions(s, ds).items() == s.items(),
    decreases ds.len(),
{
    if ds.len() > 0 {
        lemma_step_wf(s, ds[0]);
        lemma_step_items(s, ds[0]);
        lemma_run_decisions_wf_items(s.step(ds[0]), ds.drop_first());
    }
}

/// Order fidelity: whatever decision sequence ranks the engine, the final
/// order holds exactly the items given at initialization, with multiplicity
/// — no item is lost or duplicated.
pub proof fn lemma_order_fidelity<T>(items: Seq<T>, ds: Seq<bool>)
    requires
        run_decisions(init_state(items), ds).ranked(),
    ensures
        run_decisions(init_state(items), ds).final_order().to_multiset() == items.to_multiset(),
{
    broadcast use group_multiset_axioms, group_to_multiset_ensures;

    lemma_init_state(items);
    lemma_run_decisions_wf_items(init_state(items), ds);
    let t = run_decisions(init_state(items), ds);
    assert(Seq::<T>::empty().to_multiset() =~= Multiset::<T>::empty());
    if t.runs.len() == 0 {
        assert(t.items() =~= Multiset::<T>::empty());
        assert(t.final_order().to_multiset() == items.to_multiset());
    } else {
        assert(t.runs.drop_first() =~= Seq::<Seq<T>>::empty());
        assert(runs_items(t.runs) == t.runs[0].to_multiset().add(runs_items(t.runs.drop_first())));
        assert(t.final_order().to_multiset() =~= t.items());
    }
}

/// Determinism: the state a session ends in is a pure function of the
/// initial item sequence and the decision sequence; identical inputs and
/// identical decisions yield the identical final order.
pub proof fn lemma_determinism<T>(items1: Seq<T>, items2: Seq<T>, ds1: Seq<bool>, ds2: Seq<bool>)
    requires
        items1 == items2,
        ds1 == ds2,
    ensures
        run_decisions(init_state(items1), ds1) == run_decisions(init_state(items2), ds2),
{
}

/// One decision removes at most one run from the queue.
pub proof fn lemma_step_queue_len<T>(s: RankState<T>, left_preferred: bool)
    ensures
        s.step(left_preferred).runs.len() + 1 >= s.runs.len(),
{
}

proof fn lemma_run_decisions_queue_len<T>(s: RankState<T>, ds: Seq<bool>)
    ensures
        run_decisions(s, ds).runs.len() + ds.len() >= s.runs.len(),
    decreases ds.len(),
{
    if ds.len() > 0 {
        lemma_step_queue_len(s, ds[0]);
        lemma_run_decisions_queue_len(s.step(ds[0]), ds.drop_first());
    }
}

/// Ranking `N` items takes at least `N - 1` decisions: the queue starts with
/// `N` runs, each decision removes at most one, and ranking needs the queue
/// down to one run.
pub proof fn lemma_decisions_lower_bound<T>(items: Seq<T>, ds: Seq<bool>)
    requires
        items.len() >= 1,
        run_decisions(init_state(items), ds).ranked(),
    ensures
        ds.len() >= items.len() - 1,
{
    lemma_run_decisions_queue_len(init_state(items), ds);
}

proof fn lemma_run_len_le<T>(runs: Seq<Seq<T>>, i: int)
    requires
        0 <= i < runs.len(),
    ensures
        runs[i].len() <= runs_items(runs).len(),
    decreases runs.len(),
{
    broadcast use group_multiset_axioms, group_to_multiset_ensures;

    assert(runs_items(runs).len() == runs[0].to_multiset().len() + runs_items(
        runs.drop_first(),
    ).len());
    if i > 0 {
        lemma_run_len_le(runs.drop_first(), i - 1);
        assert(runs.drop_first()[i - 1] == runs[i]);
    }
}

/// The number of items a state holds.
pub open spec fn total_items<T>(s: RankState<T>) -> nat {
    s.items().len()
}

/// No queued run holds more items than the state does.
proof fn lemma_run_len_le_total<T>(s: RankState<T>, i: int)
    requires
        0 <= i < s.runs.len(),
    ensures
        s.runs[i].len() <= total_items(s),
{
    broadcast use group_multiset_axioms;

    lemma_run_len_le(s.runs, i);
}

/// An upper bound on the decisions still needed to rank `s`, whatever they
/// decide. It is polynomial in the number of items, not the tight
/// `N * log2(N)` comparison bound of merge sort; it suffices for the engine
/// always to terminate.
pub open spec fn decisions_bound<T>(s: RankState<T>) -> int {
    if s.ranked() {
        0
    } else {
        (2 * total_items(s) + 1) * (s.runs.len() as int) + s.runs[0].len() + s.runs[1].len()
    }
}

/// Every decision taken before the state is ranked brings the bound
/// strictly down.
proof fn lemma_step_progress<T>(s: RankState<T>, d: bool)
    requires
        s.wf(),
        !s.ranked(),
    ensures
        s.step(d).wf(),
        decisions_bound(s.step(d)) < decisions_bound(s),
{
    broadcast use group_multiset_axioms;

    lemma_step_wf(s, d);
    lemma_step_items(s, d);
    let t = s.step(d);
    let tt = total_items(s) as int;
    let n = s.runs.len() as int;
    assert(total_items(t) == total_items(s));
    assert(s.runs[0].len() >= 1 && s.runs[1].len() >= 1);
    let w = if d {
        s.runs[0]
    } else {
        s.runs[1]
    };
    if w.len() == 1 {
        assert(t.runs.len() == n - 1);
        if t.ranked() {
            assert(decisions_bound(t) == 0);
            assert((2 * tt + 1) * n > 0) by (nonlinear_arith)
                requires
                    tt >= 0,
                    n >= 2,
            ;
        } else {
            lemma_run_len_le_total(t, 0);
            lemma_run_len_le_total(t, 1);
            assert((2 * tt + 1) * (n - 1) + 2 * tt < (2 * tt + 1) * n + 2) by (nonlinear_arith)
                requires
                    tt >= 0,
                    n >= 2,
            ;
        }
    } else {
        assert(t.runs.len() == n);
        assert(t.runs[0].len() + t.runs[1].len() == s.runs[0].len() + s.runs[1].len() - 1);
    }
}

proof fn lemma_ranked_stays<T>(s: RankState<T>, ds: Seq<bool>)
    requires
        s.ranked(),
    ensures
        run_decisions(s, ds) == s,
    decreases ds.len(),
{
    if ds.len() > 0 {
        assert(s.step(ds[0]) == s);
        lemma_ranked_stays(s, ds.drop_first());
    }
}

/// Ranking always terminates: any decision sequence at least
/// `decisions_bound` long leaves the engine ranked, whatever it decides.
pub proof fn lemma_ranking_terminates<T>(s: RankState<T>, ds: Seq<bool>)
    requires
        s.wf(),
        ds.len() >= decisions_bound(s),
    ensures
        run_decisions(s, ds).ranked(),
    decreases ds.len(),
{
    if s.ranked() {
        lemma_ranked_stays(s, ds);
    } else {
        lemma_step_progress(s, ds[0]);
        lemma_ranking_terminates(s.step(ds[0]), ds.drop_first());
    }
}

/// From `N` items, `(2N + 1) * N + 2` decisions always suffice to rank,
/// however they fall.
pub proof fn lemma_enough_decisions_rank<T>(items: Seq<T>, ds: Seq<bool>)
    requires
        ds.len() >= (2 * items.len() + 1) * items.len() + 2,
    ensures
        run_decisions(init_state(items), ds).ranked(),
{
    broadcast use group_multiset_axioms;

    let s = init_state(items);
    let n = items.len() as int;
    lemma_init_state(items);
    vstd::seq_lib::to_multiset_len(items);
    assert(total_items(s) == items.len());
    if !s.ranked() {
        assert(s.runs[0].len() == 1 && s.runs[1].len() == 1);
        assert(decisions_bound(s) == (2 * n + 1) * n + 2);
    }
    lemma_ranking_terminates(s, ds);
}

/// With zero or one item there is nothing to merge: the engine is ranked
/// immediately and the final order is the input order unchanged, after zero
/// decisions.
pub proof fn lemma_trivially_ranked<T>(items: Seq<T>)
    requires
        items.len() <= 1,
    ensures
        init_state(items).ranked(),
        init_state(items).final_order() == items,
{
    if items.len() == 0 {
        assert(init_state(items).final_order() =~= items);
    } else {
        assert(init_state(items).runs[0] == seq![items[0]]);
        assert(init_state(items).final_order() =~= items);
    }
}

} // verus!
