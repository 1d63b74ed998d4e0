//! Watching the loss, and calling for a rollback when it gets worse.

use crate::tensor::arith;
use crate::tensor::arith::sum;
use crate::tensor::number;
use crate::tensor::number::{part, Number};
use crate::tensor::reals;
use crate::tensor::reals::Reading;
use vstd::prelude::*;

verus! {

/// What is to be done after a loss.
#[derive(Debug, Clone, Copy, PartialEq, Eq)]
pub enum MonitorAction<T> {
    Continue,
    Rollback { current_avg: T, best_avg: T },
}

/// The latest losses, the best average so far, by how much of it the average may get worse, and
/// some counts.
#[derive(Debug)]
pub struct TrainingMonitor<T> {
    loss_history: Vec<T>,
    window_size: usize,
    best_avg_loss: T,
    degradation_threshold: T,
    total_samples: u64,
    rollback_count: u32,
}

/// The content of a [`TrainingMonitor`].
#[verifier::ext_equal]
pub struct MonitorState<T> {
    pub window: Seq<T>,
    pub size: nat,
    pub best: T,
    pub threshold: T,
    pub samples: u64,
    pub rollbacks: u32,
}

impl<T> View for TrainingMonitor<T> {
    type V = MonitorState<T>;

    closed spec fn view(&self) -> MonitorState<T> {
        MonitorState {
            window: self.loss_history@,
            size: self.window_size as nat,
            best: self.best_avg_loss,
            threshold: self.degradation_threshold,
            samples: self.total_samples,
            rollbacks: self.rollback_count,
        }
    }
}

impl<T> MonitorState<T> {
    /// No more losses are kept than the window holds.
    pub open spec fn well_formed(self) -> bool {
        self.window.len() <= self.size
    }

    /// The state after a loss came in: it is added to the window, out of which the oldest
    /// goes if there is no room.
    pub open spec fn with_loss(self, loss: T) -> MonitorState<T> {
        let longer = self.window.push(loss);
        MonitorState {
            window: if longer.len() > self.size {
                longer.skip(1)
            } else {
                longer
            },
            samples: (self.samples + 1) as u64,
            ..self
        }
    }
}

/// Whether `average` is that of some losses; without any it is the highest number.
pub open spec fn is_average<T: Number>(losses: Seq<T>, average: T) -> bool {
    if losses.len() == 0 {
        T::highest.ensures((), average)
    } else {
        number::is_part(arith::total(losses), losses.len(), average)
    }
}

/// A full window judged: its average, whether that is better than the best, one, and whether it
/// is worse than the best and as much of it as is tolerated.
pub struct Judgement<T> {
    pub average: T,
    pub better: bool,
    pub one: T,
    pub worse: bool,
}

impl<T: Number> MonitorState<T> {
    /// Whether `judgement` is that of the window.
    pub open spec fn is_judged(self, judgement: Judgement<T>) -> bool {
        &&& is_average(self.window, judgement.average)
        &&& T::is_below.ensures((judgement.average, self.best), judgement.better)
        &&& T::one.ensures((), judgement.one)
        &&& T::is_below.ensures(
            (self.best.product(judgement.one.sum(self.threshold)), judgement.average),
            judgement.worse,
        )
    }

    /// What is to be done after a judgement.
    pub open spec fn action_of(self, judgement: Judgement<T>) -> MonitorAction<T> {
        if !judgement.better && judgement.worse {
            MonitorAction::Rollback { current_avg: judgement.average, best_avg: self.best }
        } else {
            MonitorAction::Continue
        }
    }

    /// The state after a judgement: a better average becomes the best, a worse one is counted.
    pub open spec fn with_judgement(self, judgement: Judgement<T>) -> MonitorState<T> {
        if judgement.better {
            MonitorState { best: judgement.average, ..self }
        } else if judgement.worse {
            MonitorState { rollbacks: (self.rollbacks + 1) as u32, ..self }
        } else {
            self
        }
    }

    /// Whether a loss leads to this action and this state.
    pub open spec fn records(
        self,
        loss: T,
        action: MonitorAction<T>,
        after: MonitorState<T>,
    ) -> bool {
        let seen = self.with_loss(loss);
        if seen.window.len() < seen.size {
            &&& action is Continue
            &&& after == seen
        } else {
            exists|judgement: Judgement<T>|
                {
                    &&& #[trigger] seen.is_judged(judgement)
                    &&& action == seen.action_of(judgement)
                    &&& after == seen.with_judgement(judgement)
                }
        }
    }

    /// Whether this is the state of a monitor that has seen no loss.
    pub open spec fn is_new(self) -> bool {
        &&& self.window == Seq::<T>::empty()
        &&& T::highest.ensures((), self.best)
        &&& self.samples == 0
        &&& self.rollbacks == 0
    }
}

impl<T: Number> TrainingMonitor<T> {
    /// A monitor that has seen no loss; every average is better than the highest number.
    pub fn new(window_size: usize, degradation_threshold: T) -> (monitor: Self)
        ensures
            monitor@.well_formed(),
            monitor@.is_new(),
            monitor@.size == window_size,
            monitor@.threshold == degradation_threshold,
    {
        TrainingMonitor {
            loss_history: Vec::new(),
            window_size,
            best_avg_loss: T::highest(),
            degradation_threshold,
            total_samples: 0,
            rollback_count: 0,
        }
    }

    /// Takes in a loss. While the window is not full training goes on. On a full window its
    /// average is compared with the best so far: a better one becomes the best, one that is
    /// worse by more than is tolerated calls for a rollback.
    pub fn record_loss(&mut self, loss: T) -> (action: MonitorAction<T>)
        requires
            old(self)@.well_formed(),
            old(self)@.samples < u64::MAX,
            old(self)@.rollbacks < u32::MAX,
        ensures
            final(self)@.well_formed(),
            old(self)@.records(loss, action, final(self)@),
    {
        self.loss_history.push(loss);
        self.total_samples = self.total_samples + 1;
        if self.loss_history.len() > self.window_size {
            self.loss_history.remove(0);
        }
        let ghost seen = old(self)@.with_loss(loss);
        assert(self@ =~= seen);
        if self.loss_history.len() < self.window_size {
            return MonitorAction::Continue;
        }
        let average: T = self.rolling_avg();
        let best: T = self.best_avg_loss;
        let better: bool = average.is_below(best);
        let one: T = T::one();
        let limit: T = best.times(one.plus(self.degradation_threshold));
        let worse: bool = limit.is_below(average);
        let ghost judgement = Judgement { average, better, one, worse };
        assert(seen.is_judged(judgement));
        if better {
            self.best_avg_loss = average;
            assert(self@ =~= seen.with_judgement(judgement));
            return MonitorAction::Continue;
        }
        if worse {
            self.rollback_count = self.rollback_count + 1;
            assert(self@ =~= seen.with_judgement(judgement));
            return MonitorAction::Rollback { current_avg: average, best_avg: best };
        }
        MonitorAction::Continue
    }

    /// Forgets the latest losses. The best average and the counts stay.
    pub fn reset_after_rollback(&mut self)
        ensures
            final(self)@ == (MonitorState { window: Seq::<T>::empty(), ..old(self)@ }),
    {
        self.loss_history.clear();
    }

    /// The average of the latest losses; the highest number without any.
    pub fn rolling_avg(&self) -> (average: T)
        ensures
            is_average(self@.window, average),
    {
        if self.loss_history.len() == 0 {
            return T::highest();
        }
        part(sum(self.loss_history.as_slice()), self.loss_history.len() as u64)
    }

    /// The best average so far.
    pub fn best_avg_loss(&self) -> (best: T)
        ensures
            best == self@.best,
    {
        self.best_avg_loss
    }

    /// How many losses came in.
    pub fn total_samples(&self) -> (n: u64)
        ensures
            n == self@.samples,
    {
        self.total_samples
    }

    /// How many rollbacks were called for.
    pub fn rollback_count(&self) -> (n: u32)
        ensures
            n == self@.rollbacks,
    {
        self.rollback_count
    }
}

/// The window holds the latest losses: all of them while there is room, and then as many as
/// fit.
pub proof fn law_window_holds_the_latest<L>(state: MonitorState<L>, loss: L)
    requires
        state.well_formed(),
    ensures
        state.with_loss(loss).well_formed(),
        state.size > 0 ==> state.with_loss(loss).window.last() == loss,
        state.window.len() < state.size ==> state.with_loss(loss).window == state.window.push(
            loss,
        ),
        state.window.len() == state.size ==> state.with_loss(loss).window.len() == state.size,
{
}

impl<T: Number> MonitorState<T> {
    /// Whether some average was the best before; at first there is none.
    pub open spec fn has_best(self, reading: Reading<T>) -> bool {
        (reading.finite)(self.best)
    }

    /// Whether window and threshold stand for real numbers, and so does the best average, unless
    /// there is none yet.
    pub open spec fn is_real(self, reading: Reading<T>) -> bool {
        &&& reading.all_finite(self.window)
        &&& (reading.finite)(self.threshold)
        &&& self.has_best(reading) || T::highest.ensures((), self.best)
        &&& 0 < self.size <= u64::MAX
        &&& self.well_formed()
    }
}

/// The tolerance is relative. Over real numbers, a full window calls for a rollback exactly if its
/// mean is no better than the best one and exceeds it by more than the threshold times the best;
/// then both are told. The best mean is the least one so far.
pub proof fn law_the_tolerance_is_relative<T: Number>(
    reading: Reading<T>,
    before: MonitorState<T>,
    loss: T,
    action: MonitorAction<T>,
    after: MonitorState<T>,
)
    requires
        reading.is_faithful(),
        before.is_real(reading),
        (reading.finite)(loss),
        before.records(loss, action, after),
    ensures
        after.is_real(reading),
        after.size == before.size,
        after.threshold == before.threshold,
        after.window == before.with_loss(loss).window,
        ({
            let mean = reading.mean(after.window);
            let best = reading.of(before.best);
            let excess = mean - best;
            &&& after.window.len() < after.size ==> action is Continue && after.best == before.best
            &&& after.window.len() == after.size && !before.has_best(reading) ==> {
                &&& action is Continue
                &&& reading.reads(after.best, mean)
            }
            &&& after.window.len() == after.size && before.has_best(reading) ==> {
                &&& action is Rollback <==> excess >= 0real && excess > reading.of(
                    before.threshold,
                ) * best
                &&& best >= 0real && reading.of(before.threshold) >= 0real ==> (action is Rollback
                    <==> excess > reading.of(before.threshold) * best)
                &&& action matches MonitorAction::Rollback { current_avg, best_avg }
                    ==> reading.reads(current_avg, mean) && reading.reads(best_avg, best)
                &&& reading.reads(
                    after.best,
                    if mean < best {
                        mean
                    } else {
                        best
                    },
                )
            }
        }),
{
    let seen = before.with_loss(loss);
    let longer = before.window.push(loss);
    assert forall|i: int| 0 <= i < seen.window.len() implies (reading.finite)(
        #[trigger] seen.window[i],
    ) by {
        let at = if longer.len() > before.size {
            i + 1
        } else {
            i
        };
        assert(seen.window[i] == longer[at]);
        if at < before.window.len() {
            assert((reading.finite)(before.window[at]));
        }
    }
    if seen.window.len() == seen.size {
        let judgement = choose|judgement: Judgement<T>|
            {
                &&& #[trigger] seen.is_judged(judgement)
                &&& action == seen.action_of(judgement)
                &&& after == seen.with_judgement(judgement)
            };
        reading.lemma_total(seen.window);
        reading.lemma_part(
            arith::total(seen.window),
            seen.window.len(),
            judgement.average,
        );
        assert(reading.reads(judgement.average, reading.mean(seen.window)));
        if before.has_best(reading) {
            let best = reading.of(before.best);
            let threshold = reading.of(before.threshold);
            assert(reading.reads(judgement.one, 1real));
            assert(reading.reads(judgement.one.sum(before.threshold), 1real + threshold));
            assert(reading.reads(
                before.best.product(judgement.one.sum(before.threshold)),
                best * (1real + threshold),
            ));
            assert(best * (1real + threshold) == best + threshold * best) by (nonlinear_arith);
            if best >= 0real && threshold >= 0real {
                assert(threshold * best >= 0real) by (nonlinear_arith)
                    requires
                        best >= 0real,
                        threshold >= 0real,
                ;
            }
        }
    }
}

/// Whether one list holds the multiples of the numbers of another.
pub open spec fn is_multiple<T>(
    reading: Reading<T>,
    factor: real,
    list: Seq<T>,
    multiple: Seq<T>,
) -> bool {
    &&& multiple.len() == list.len()
    &&& reading.all_finite(list)
    &&& reading.all_finite(multiple)
    &&& forall|i: int|
        0 <= i < list.len() ==> reading.of(#[trigger] multiple[i]) == factor * reading.of(list[i])
}

/// Whether one monitor stands where another one does, with all losses multiplied.
pub open spec fn is_scaled_monitor<T: Number>(
    reading: Reading<T>,
    factor: real,
    a: MonitorState<T>,
    b: MonitorState<T>,
) -> bool {
    &&& a.is_real(reading)
    &&& b.is_real(reading)
    &&& a.size == b.size
    &&& a.threshold == b.threshold
    &&& is_multiple(reading, factor, a.window, b.window)
    &&& a.has_best(reading) <==> b.has_best(reading)
    &&& a.has_best(reading) ==> reading.of(b.best) == factor * reading.of(a.best)
}

/// Multiplying all losses by the same positive number changes no action: monitors that stand
/// alike act alike, and stand alike again.
pub proof fn law_scaling_changes_no_action<T: Number>(
    reading: Reading<T>,
    factor: real,
    a: (MonitorState<T>, T, MonitorAction<T>, MonitorState<T>),
    b: (MonitorState<T>, T, MonitorAction<T>, MonitorState<T>),
)
    requires
        reading.is_faithful(),
        factor > 0real,
        is_scaled_monitor(reading, factor, a.0, b.0),
        (reading.finite)(a.1),
        (reading.finite)(b.1),
        reading.of(b.1) == factor * reading.of(a.1),
        a.0.records(a.1, a.2, a.3),
        b.0.records(b.1, b.2, b.3),
    ensures
        a.2 is Rollback <==> b.2 is Rollback,
        is_scaled_monitor(reading, factor, a.3, b.3),
{
    law_the_tolerance_is_relative(reading, a.0, a.1, a.2, a.3);
    law_the_tolerance_is_relative(reading, b.0, b.1, b.2, b.3);
    let (long_a, long_b) = (a.0.window.push(a.1), b.0.window.push(b.1));
    let (wa, wb) = (a.3.window, b.3.window);
    assert forall|i: int| 0 <= i < wa.len() implies reading.of(#[trigger] wb[i]) == factor
        * reading.of(wa[i]) by {
        let at = if long_a.len() > a.0.size {
            i + 1
        } else {
            i
        };
        assert(wa[i] == long_a[at] && wb[i] == long_b[at]);
        if at < a.0.window.len() {
            assert(reading.of(b.0.window[at]) == factor * reading.of(a.0.window[at]));
        }
    }
    reals::lemma_sum_of_multiples(
        wa.len(),
        factor,
        |i: int| reading.at(wa, i),
        |i: int| reading.at(wb, i),
    );
    if wa.len() == a.3.size {
        let n = wa.len() as real;
        let (sum, mean, multiple) = (reading.sum(wa), reading.mean(wa), reading.mean(wb));
        assert(multiple == factor * mean) by (nonlinear_arith)
            requires
                n > 0real,
                mean == sum / n,
                multiple == (factor * sum) / n,
        ;
        if a.0.has_best(reading) {
            let (best, threshold) = (reading.of(a.0.best), reading.of(a.0.threshold));
            let scaled = factor * best;
            let excess = mean - best;
            assert(multiple - scaled == factor * excess) by (nonlinear_arith)
                requires
                    multiple == factor * mean,
                    scaled == factor * best,
                    excess == mean - best,
            ;
            assert(threshold * scaled == factor * (threshold * best)) by (nonlinear_arith)
                requires
                    scaled == factor * best,
            ;
            let limit = threshold * best;
            assert((factor * excess >= 0real) == (excess >= 0real)) by (nonlinear_arith)
                requires
                    factor > 0real,
            ;
            assert((factor * excess > factor * limit) == (excess > limit)) by (nonlinear_arith)
                requires
                    factor > 0real,
            ;
            assert((factor * mean < factor * best) == (mean < best)) by (nonlinear_arith)
                requires
                    factor > 0real,
            ;
        }
    }
}

/// Whether `states` are what a monitor goes through with these losses, and `actions` what it calls
/// for.
pub open spec fn is_history<T: Number>(
    states: Seq<MonitorState<T>>,
    losses: Seq<T>,
    actions: Seq<MonitorAction<T>>,
) -> bool {
    &&& states.len() == losses.len() + 1
    &&& actions.len() == losses.len()
    &&& states[0].is_new()
    &&& forall|k: int|
        0 <= k < losses.len() ==> (#[trigger] states[k]).records(
            losses[k],
            actions[k],
            states[k + 1],
        )
}

/// From a new monitor on, multiplying all losses by the same positive number changes no action.
pub proof fn law_histories_scale<T: Number>(
    reading: Reading<T>,
    factor: real,
    a: (Seq<MonitorState<T>>, Seq<T>, Seq<MonitorAction<T>>),
    b: (Seq<MonitorState<T>>, Seq<T>, Seq<MonitorAction<T>>),
    k: int,
)
    requires
        reading.is_faithful(),
        factor > 0real,
        is_history(a.0, a.1, a.2),
        is_history(b.0, b.1, b.2),
        is_multiple(reading, factor, a.1, b.1),
        a.0[0].size == b.0[0].size,
        0 < a.0[0].size <= u64::MAX,
        a.0[0].threshold == b.0[0].threshold,
        (reading.finite)(a.0[0].threshold),
        0 <= k < a.1.len(),
    ensures
        a.2[k] is Rollback <==> b.2[k] is Rollback,
        is_scaled_monitor(reading, factor, a.0[k + 1], b.0[k + 1]),
    decreases k,
{
    if k > 0 {
        law_histories_scale(reading, factor, a, b, k - 1);
    }
    assert(a.0[k].records(a.1[k], a.2[k], a.0[k + 1]));
    assert(b.0[k].records(b.1[k], b.2[k], b.0[k + 1]));
    assert((reading.finite)(a.1[k]) && (reading.finite)(b.1[k]));
    assert(reading.of(b.1[k]) == factor * reading.of(a.1[k]));
    law_scaling_changes_no_action(
        reading,
        factor,
        (a.0[k], a.1[k], a.2[k], a.0[k + 1]),
        (b.0[k], b.1[k], b.2[k], b.0[k + 1]),
    );
}

} // verus!
