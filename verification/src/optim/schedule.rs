//! The optimizer seen from outside, and a learning rate that follows a cosine.

use crate::tensor::number;
use crate::tensor::number::{ratio, Number};
use crate::tensor::reals;
use crate::tensor::reals::Reading;
use vstd::prelude::*;

verus! {

/// Something that updates parameters by their gradients.
pub trait Optimizer {
    /// Updates the parameters once.
    fn step(&mut self);

    /// Forgets the gradients.
    fn zero_grad(&self);
}

/// Where a step of training lies in the schedule.
#[derive(Debug, Clone, Copy, PartialEq, Eq, Structural)]
pub enum LrPhase {
    /// The rate rises: `done` of `of` steps.
    Warmup { done: u64, of: u64 },
    /// The rate falls along a cosine: `done` of `of` steps.
    Decay { done: u64, of: u64 },
    /// The rate stays at its least.
    Floor,
}

/// A linear warmup followed by a decay along a cosine.
#[derive(Debug, Clone, Copy, PartialEq, Eq, Structural)]
pub struct CosineSchedule {
    pub warmup_steps: u64,
    pub total_steps: u64,
}

impl CosineSchedule {
    /// Where a step lies. No phase is divided into zero steps.
    pub open spec fn phase_of(self, step: u64) -> LrPhase {
        if step < self.warmup_steps {
            LrPhase::Warmup { done: step, of: self.warmup_steps }
        } else if step >= self.total_steps {
            LrPhase::Floor
        } else {
            LrPhase::Decay {
                done: (step - self.warmup_steps) as u64,
                of: (self.total_steps - self.warmup_steps) as u64,
            }
        }
    }

    /// The schedule from its numbers.
    pub fn new(warmup_steps: u64, total_steps: u64) -> (schedule: Self)
        ensures
            schedule == (CosineSchedule { warmup_steps, total_steps }),
    {
        CosineSchedule { warmup_steps, total_steps }
    }

    /// Where a step lies.
    pub fn phase(&self, step: u64) -> (phase: LrPhase)
        ensures
            phase == self.phase_of(step),
    {
        if step < self.warmup_steps {
            LrPhase::Warmup { done: step, of: self.warmup_steps }
        } else if step >= self.total_steps {
            LrPhase::Floor
        } else {
            LrPhase::Decay {
                done: step - self.warmup_steps,
                of: self.total_steps - self.warmup_steps,
            }
        }
    }
}

/// Something that tells the learning rate of every step.
pub trait LrScheduler<T> {
    /// The learning rate of a step.
    fn get_lr(&self, step: u64) -> T;
}

/// A learning rate that rises to `base_lr` in a straight line and falls along a cosine to
/// `min_lr`.
#[derive(Debug, Clone, Copy, PartialEq, Eq)]
pub struct CosineScheduler<T> {
    pub base_lr: T,
    pub warmup_steps: u64,
    pub total_steps: u64,
    pub min_lr: T,
}

/// How a rate falls: the way done, the cosine of half a turn that far, one half and one.
pub struct CosineFall<T> {
    pub progress: T,
    pub pi: T,
    pub cosine: T,
    pub half: T,
    pub one: T,
}

impl<T: Number> CosineScheduler<T> {
    /// The schedule whose least rate is a tenth of its greatest.
    pub fn new(base_lr: T, warmup_steps: u64, total_steps: u64) -> (scheduler: Self)
        ensures
            scheduler.is_new(base_lr, warmup_steps, total_steps),
    {
        let tenth: T = T::decimal(1, 1);
        assert(T::decimal.ensures((1, 1), tenth));
        CosineScheduler { base_lr, warmup_steps, total_steps, min_lr: base_lr.times(tenth) }
    }

    /// Whether this is a schedule as it is made: the least rate is a tenth of the greatest.
    pub open spec fn is_new(self, base_lr: T, warmup_steps: u64, total_steps: u64) -> bool {
        &&& self.base_lr == base_lr
        &&& self.warmup_steps == warmup_steps
        &&& self.total_steps == total_steps
        &&& exists|tenth: T| #[trigger]
            T::decimal.ensures((1, 1), tenth) && self.min_lr == base_lr.product(tenth)
    }

    /// The phases of the schedule.
    pub open spec fn phases(self) -> CosineSchedule {
        CosineSchedule { warmup_steps: self.warmup_steps, total_steps: self.total_steps }
    }

    /// Whether `fall` belongs to `done` of `of` steps.
    pub open spec fn is_fall(self, done: u64, of: u64, fall: CosineFall<T>) -> bool {
        &&& number::is_ratio(done as nat, of as nat, fall.progress)
        &&& T::pi.ensures((), fall.pi)
        &&& T::cosine.ensures((fall.pi.product(fall.progress),), fall.cosine)
        &&& T::decimal.ensures((5, 1), fall.half)
        &&& T::one.ensures((), fall.one)
    }

    /// The rate that has fallen this far.
    pub open spec fn fallen(self, fall: CosineFall<T>) -> T {
        self.min_lr.sum(
            fall.half.product(self.base_lr.difference(self.min_lr)).product(
                fall.one.sum(fall.cosine),
            ),
        )
    }

    /// Whether `rate` is that of a step.
    pub open spec fn is_rate(self, step: u64, rate: T) -> bool {
        match self.phases().phase_of(step) {
            LrPhase::Warmup { done, of } => exists|part: T| #[trigger]
                number::is_ratio(done as nat, of as nat, part) && rate == self.base_lr.product(
                    part,
                ),
            LrPhase::Floor => rate == self.min_lr,
            LrPhase::Decay { done, of } => exists|fall: CosineFall<T>| #[trigger]
                self.is_fall(done, of, fall) && rate == self.fallen(fall),
        }
    }
}

impl<T: Number> LrScheduler<T> for CosineScheduler<T> {
    /// The learning rate of a step.
    fn get_lr(&self, step: u64) -> (rate: T)
        ensures
            self.is_rate(step, rate),
    {
        let phases = CosineSchedule::new(self.warmup_steps, self.total_steps);
        match phases.phase(step) {
            LrPhase::Warmup { done, of } => {
                let part: T = ratio(done, of);
                assert(number::is_ratio(done as nat, of as nat, part));
                self.base_lr.times(part)
            },
            LrPhase::Floor => self.min_lr,
            LrPhase::Decay { done, of } => {
                let progress: T = ratio(done, of);
                let pi: T = T::pi();
                let cosine: T = pi.times(progress).cosine();
                let half: T = T::decimal(5, 1);
                let one: T = T::one();
                proof {
                    let fall = CosineFall { progress, pi, cosine, half, one };
                    assert(self.is_fall(done, of, fall));
                }
                self.min_lr.plus(
                    half.times(self.base_lr.minus(self.min_lr)).times(one.plus(cosine)),
                )
            },
        }
    }
}

/// The fraction of a phase is a proper one: what is done is less than the whole.
pub proof fn law_phases_are_proper_fractions(schedule: CosineSchedule, step: u64)
    ensures
        schedule.phase_of(step) matches LrPhase::Warmup { done, of } ==> done < of,
        schedule.phase_of(step) matches LrPhase::Decay { done, of } ==> done < of,
{
}

/// The schedule goes through its phases in order: once the rate falls it does not rise again,
/// and once it is at its least it stays there.
pub proof fn law_phases_come_in_order(schedule: CosineSchedule, step: u64, later: u64)
    requires
        step <= later,
    ensures
        !(schedule.phase_of(step) is Warmup) ==> !(schedule.phase_of(later) is Warmup),
        schedule.phase_of(step) is Floor ==> schedule.phase_of(later) is Floor,
{
}

impl<T: Number> CosineScheduler<T> {
    /// Whether the rates stand for real numbers.
    pub open spec fn is_real(self, reading: Reading<T>) -> bool {
        (reading.finite)(self.base_lr) && (reading.finite)(self.min_lr)
    }

    /// How much of the way from the greatest rate to the least is still to go, `done` of `of` steps
    /// into the fall.
    pub open spec fn left(self, reading: Reading<T>, done: nat, of: nat) -> real {
        (1real + (reading.cos)(reading.half_turn * (done as real / of as real))) / 2real
    }
}

/// The least rate of a new schedule is a tenth of the greatest.
pub proof fn law_the_least_rate_is_a_tenth<T: Number>(
    reading: Reading<T>,
    base_lr: T,
    warmup_steps: u64,
    total_steps: u64,
    scheduler: CosineScheduler<T>,
)
    requires
        reading.is_faithful(),
        (reading.finite)(base_lr),
        scheduler.is_new(base_lr, warmup_steps, total_steps),
    ensures
        scheduler.is_real(reading),
        scheduler.base_lr == base_lr,
        scheduler.warmup_steps == warmup_steps,
        scheduler.total_steps == total_steps,
        10real * reading.of(scheduler.min_lr) == reading.of(base_lr),
{
    let tenth = choose|tenth: T| #[trigger]
        T::decimal.ensures((1, 1), tenth) && scheduler.min_lr == base_lr.product(tenth);
    assert(reals::pow(10real, 0) == 1real);
    assert(reals::pow(10real, 1) == reals::pow(10real, 0) * 10real);
    assert(1real * 10real == 10real);
    let base = reading.of(base_lr);
    assert(10real * (base * (1real / 10real)) == base) by (nonlinear_arith);
}

/// The learning rate, over real numbers: it rises in proportion to the steps until it has reached
/// the greatest rate when warmup ends, falls along half a turn of the cosine, and stays at the
/// least.
pub proof fn law_rates_rise_and_fall<T: Number>(
    reading: Reading<T>,
    scheduler: CosineScheduler<T>,
    step: u64,
    rate: T,
)
    requires
        reading.is_faithful(),
        scheduler.is_real(reading),
        scheduler.is_rate(step, rate),
    ensures
        (reading.finite)(rate),
        step < scheduler.warmup_steps ==> reading.of(rate) * scheduler.warmup_steps as real
            == reading.of(scheduler.base_lr) * step as real,
        scheduler.warmup_steps <= step < scheduler.total_steps ==> {
            let left = scheduler.left(
                reading,
                (step - scheduler.warmup_steps) as nat,
                (scheduler.total_steps - scheduler.warmup_steps) as nat,
            );
            &&& reading.of(rate) == reading.of(scheduler.base_lr) * left + reading.of(
                scheduler.min_lr,
            ) * (1real - left)
            &&& 0real < left <= 1real
            &&& step == scheduler.warmup_steps ==> left == 1real
        },
        step >= scheduler.warmup_steps && step >= scheduler.total_steps ==> reading.of(rate)
            == reading.of(scheduler.min_lr),
{
    let (base, least) = (reading.of(scheduler.base_lr), reading.of(scheduler.min_lr));
    match scheduler.phases().phase_of(step) {
        LrPhase::Warmup { done, of } => {
            let part = choose|part: T| #[trigger]
                number::is_ratio(done as nat, of as nat, part) && rate
                    == scheduler.base_lr.product(part);
            reading.lemma_ratio(done as nat, of as nat, part);
            let (d, o) = (done as real, of as real);
            assert((base * (d / o)) * o == base * d) by (nonlinear_arith)
                requires
                    o > 0real,
            ;
        },
        LrPhase::Floor => {},
        LrPhase::Decay { done, of } => {
            let fall = choose|fall: CosineFall<T>| #[trigger]
                scheduler.is_fall(done, of, fall) && rate == scheduler.fallen(fall);
            reading.lemma_ratio(done as nat, of as nat, fall.progress);
            reading.lemma_half(fall.half);
            let progress = done as real / of as real;
            let angle = reading.half_turn * progress;
            assert(reading.reads(fall.pi.product(fall.progress), angle));
            let cosine = (reading.cos)(angle);
            assert(reading.reads(fall.cosine, cosine));
            let left = scheduler.left(reading, done as nat, of as nat);
            let (d, o, turn) = (done as real, of as real, reading.half_turn);
            assert(0real <= progress && progress < 1real) by (nonlinear_arith)
                requires
                    progress == d / o,
                    0real <= d < o,
            ;
            assert(0real <= angle && angle < turn) by (nonlinear_arith)
                requires
                    angle == turn * progress,
                    turn > 0real,
                    0real <= progress < 1real,
            ;
            assert((reading.cos)(turn) < (reading.cos)(angle));
            if done == 0 {
                assert(progress == 0real) by (nonlinear_arith)
                    requires
                        progress == d / o,
                        d == 0real,
                        o > 0real,
                ;
                assert(angle == 0real) by (nonlinear_arith)
                    requires
                        angle == turn * progress,
                        progress == 0real,
                ;
            } else {
                assert(angle > 0real) by (nonlinear_arith)
                    requires
                        angle == turn * progress,
                        progress == d / o,
                        turn > 0real,
                        d > 0real,
                        o > 0real,
                ;
                assert((reading.cos)(angle) < (reading.cos)(0real));
            }
            assert(least + ((1real / 2real) * (base - least)) * (1real + cosine) == base * left
                + least * (1real - left)) by (nonlinear_arith)
                requires
                    left == (1real + cosine) / 2real,
            ;
        },
    }
}

/// Once warmup is over the rate never rises, as long as the least rate is not above the greatest.
pub proof fn law_rates_fall_after_warmup<T: Number>(
    reading: Reading<T>,
    scheduler: CosineScheduler<T>,
    step: u64,
    rate: T,
    later: u64,
    later_rate: T,
)
    requires
        reading.is_faithful(),
        scheduler.is_real(reading),
        reading.of(scheduler.min_lr) <= reading.of(scheduler.base_lr),
        scheduler.warmup_steps <= step <= later,
        scheduler.is_rate(step, rate),
        scheduler.is_rate(later, later_rate),
    ensures
        reading.of(later_rate) <= reading.of(rate),
        reading.of(scheduler.min_lr) <= reading.of(later_rate),
        reading.of(rate) <= reading.of(scheduler.base_lr),
{
    law_rates_rise_and_fall(reading, scheduler, step, rate);
    law_rates_rise_and_fall(reading, scheduler, later, later_rate);
    let (base, least) = (reading.of(scheduler.base_lr), reading.of(scheduler.min_lr));
    let of = (scheduler.total_steps - scheduler.warmup_steps) as nat;
    if step < scheduler.total_steps {
        let early = scheduler.left(reading, (step - scheduler.warmup_steps) as nat, of);
        assert(least <= base * early + least * (1real - early) && base * early + least * (1real
            - early) <= base) by (nonlinear_arith)
            requires
                least <= base,
                0real < early <= 1real,
        ;
        if later < scheduler.total_steps {
            let late = scheduler.left(reading, (later - scheduler.warmup_steps) as nat, of);
            if step < later {
                let (d, e, o) = (
                    (step - scheduler.warmup_steps) as real,
                    (later - scheduler.warmup_steps) as real,
                    of as real,
                );
                let turn = reading.half_turn;
                let (a, b) = (turn * (d / o), turn * (e / o));
                assert(0real <= a && a < b && b <= turn) by (nonlinear_arith)
                    requires
                        a == turn * (d / o),
                        b == turn * (e / o),
                        turn > 0real,
                        0real <= d < e < o,
                ;
                assert((reading.cos)(b) < (reading.cos)(a));
                assert(late <= early);
            }
            assert(base * late + least * (1real - late) <= base * early + least * (1real - early)
                && least <= base * late + least * (1real - late)) by (nonlinear_arith)
                requires
                    least <= base,
                    0real < late <= early <= 1real,
            ;
        }
    }
}

} // verus!
