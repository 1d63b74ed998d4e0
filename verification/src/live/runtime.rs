//! The decisions of the loop that trains while serving.

use crate::tensor::number;
use crate::tensor::number::{count, decimal, one, Number};
use crate::tensor::reals;
use crate::tensor::reals::Reading;
use vstd::prelude::*;

verus! {

/// How many samples make a batch.
pub const MICRO_BATCH: usize = 4;

/// Over how many samples gradients are accumulated.
pub const ACCUM_TARGET: u32 = 8;

/// After how many steps of training a version is committed.
pub const COMMIT_EVERY: u64 = 3;

/// The number of tokens that samples are made of.
pub const SAMPLE_VOCAB: u64 = 97;

/// After how many samples the scale of gradients comes back.
pub const SCALE_CYCLE: u64 = 7;

/// How far a switch of versions has got.
#[derive(Debug, Clone, Copy, PartialEq, Eq, Structural)]
pub enum FencePhase {
    Prepare,
    WaitFence,
    Swap,
    Commit,
    Done,
    Error,
}

/// One report of a switch of versions: its phase, how much of it is done in hundredths, how
/// many commands wait, and a text.
#[derive(Debug, Clone, PartialEq, Eq)]
pub struct FenceReport {
    pub phase: FencePhase,
    pub progress_percent: u8,
    pub queue_depth: u32,
    pub message: String,
}

/// The phases of a switch, in order.
pub open spec fn phase_at(i: int) -> FencePhase {
    if i == 0 {
        FencePhase::Prepare
    } else if i == 1 {
        FencePhase::WaitFence
    } else if i == 2 {
        FencePhase::Swap
    } else if i == 3 {
        FencePhase::Commit
    } else {
        FencePhase::Done
    }
}

/// Whether a report is the one of its phase.
pub open spec fn is_report(report: FenceReport, phase: FencePhase) -> bool {
    &&& report.phase == phase
    &&& (report.progress_percent, report.queue_depth, report.message@) == match phase {
        FencePhase::Prepare => (20u8, 8u32, "prepare"@),
        FencePhase::WaitFence => (45u8, 6u32, "wait fence"@),
        FencePhase::Swap => (70u8, 3u32, "swap pointers"@),
        FencePhase::Commit => (92u8, 1u32, "commit version"@),
        FencePhase::Done => (100u8, 0u32, "done"@),
        FencePhase::Error => (100u8, 0u32, report.message@),
    }
}

/// The report of a phase that went well.
fn report(phase: FencePhase, progress_percent: u8, queue_depth: u32, message: &str) -> (r:
    FenceReport)
    ensures
        r.phase == phase,
        r.progress_percent == progress_percent,
        r.queue_depth == queue_depth,
        r.message@ == message@,
{
    FenceReport { phase, progress_percent, queue_depth, message: message.to_owned() }
}

/// The reports of a switch of versions, in order.
pub fn fence_sequence() -> (reports: Vec<FenceReport>)
    ensures
        reports@.len() == 5,
        forall|i: int| 0 <= i < 5 ==> is_report(#[trigger] reports@[i], phase_at(i)),
{
    let mut reports: Vec<FenceReport> = Vec::new();
    reports.push(report(FencePhase::Prepare, 20, 8, "prepare"));
    reports.push(report(FencePhase::WaitFence, 45, 6, "wait fence"));
    reports.push(report(FencePhase::Swap, 70, 3, "swap pointers"));
    reports.push(report(FencePhase::Commit, 92, 1, "commit version"));
    reports.push(report(FencePhase::Done, 100, 0, "done"));
    reports
}

/// The report of a switch that was given up.
pub fn fence_error(message: String) -> (r: FenceReport)
    ensures
        is_report(r, FencePhase::Error),
        r.message == message,
{
    FenceReport { phase: FencePhase::Error, progress_percent: 100, queue_depth: 0, message }
}

impl FenceReport {
    /// Whether the hardware counts as online.
    pub fn online(&self) -> (yes: bool)
        ensures
            yes == (self.phase != FencePhase::Error),
    {
        match self.phase {
            FencePhase::Error => false,
            _ => true,
        }
    }
}

/// A committed version and the one that it follows.
#[derive(Debug, Clone, Copy, PartialEq, Eq)]
pub struct VersionLink {
    pub version_id: u64,
    pub parent_version: Option<u64>,
}

/// The version that a version follows, if there is one.
pub open spec fn parent_of(version_id: u64) -> Option<u64> {
    if version_id > 0 {
        Some((version_id - 1) as u64)
    } else {
        None
    }
}

/// The version after a commit. The numbers wrap around.
pub open spec fn version_after(version_id: u64) -> u64 {
    version_id.wrapping_add(1)
}

/// The link of a version: it follows the one before, if there is one.
pub fn version_link(version_id: u64) -> (link: VersionLink)
    ensures
        link == (VersionLink { version_id, parent_version: parent_of(version_id) }),
{
    VersionLink { version_id, parent_version: version_id.checked_sub(1) }
}

/// What one turn of the loop takes in.
#[derive(Debug, Clone, PartialEq, Eq)]
pub struct Turn {
    pub input_ids: Vec<usize>,
    pub target_ids: Vec<usize>,
    pub accum_current: u32,
    pub should_train: bool,
}

/// What is to be done after a step of training.
#[derive(Debug, Clone, Copy, PartialEq, Eq)]
pub enum LoopAction {
    /// Nothing.
    Continue,
    /// Switch versions: report the switch of version `from`, exchange the parameters, and
    /// commit.
    Commit { from: u64, link: VersionLink },
    /// Give up what was trained.
    Rollback,
}

/// The counters of the loop.
#[derive(Debug, Clone, Copy, PartialEq, Eq, Structural)]
pub struct EvolutionLoop {
    sample_id: u64,
    accum_current: u32,
    version_id: u64,
    buffered: usize,
    total_steps: u64,
}

/// The content of an [`EvolutionLoop`].
pub struct LoopState {
    pub sample_id: u64,
    pub accum_current: u32,
    pub version_id: u64,
    pub buffered: nat,
    pub total_steps: u64,
}

impl View for EvolutionLoop {
    type V = LoopState;

    closed spec fn view(&self) -> LoopState {
        LoopState {
            sample_id: self.sample_id,
            accum_current: self.accum_current,
            version_id: self.version_id,
            buffered: self.buffered as nat,
            total_steps: self.total_steps,
        }
    }
}

/// The token of a sample with the given offset.
pub open spec fn sample_token(sample_id: u64, offset: int) -> usize {
    ((sample_id + offset) % SAMPLE_VOCAB as int) as usize
}

impl LoopState {
    /// A training batch has been taken as soon as it was full.
    pub open spec fn well_formed(self) -> bool {
        self.accum_current <= ACCUM_TARGET && self.buffered < MICRO_BATCH
    }
}

impl EvolutionLoop {
    /// The loop before its first turn.
    pub fn new() -> (state: Self)
        ensures
            state@ == (LoopState {
                sample_id: 0,
                accum_current: 0,
                version_id: 1,
                buffered: 0,
                total_steps: 0,
            }),
            state@.well_formed(),
    {
        EvolutionLoop {
            sample_id: 0,
            accum_current: 0,
            version_id: 1,
            buffered: 0,
            total_steps: 0,
        }
    }

    /// The version that serves.
    pub fn version_id(&self) -> (version: u64)
        ensures
            version == self@.version_id,
    {
        self.version_id
    }

    /// The steps of training so far.
    pub fn total_steps(&self) -> (steps: u64)
        ensures
            steps == self@.total_steps,
    {
        self.total_steps
    }

    /// Takes the next sample in. Every batch of samples is trained on as soon as it is full.
    pub fn next_turn(&mut self) -> (turn: Turn)
        requires
            old(self)@.well_formed(),
            old(self)@.sample_id <= u64::MAX - 4,
        ensures
            final(self)@.well_formed(),
            final(self)@.sample_id == old(self)@.sample_id + 1,
            final(self)@.accum_current == old(self)@.accum_current as int % ACCUM_TARGET as int
                + 1,
            final(self)@.version_id == old(self)@.version_id,
            final(self)@.total_steps == old(self)@.total_steps,
            turn.should_train == (old(self)@.buffered + 1 >= MICRO_BATCH),
            final(self)@.buffered == (if turn.should_train {
                0
            } else {
                old(self)@.buffered + 1
            }),
            turn.accum_current == final(self)@.accum_current,
            turn.input_ids@ == seq![
                sample_token(final(self)@.sample_id, 0),
                sample_token(final(self)@.sample_id, 1),
            ],
            turn.target_ids@ == seq![
                sample_token(final(self)@.sample_id, 2),
                sample_token(final(self)@.sample_id, 3),
            ],
    {
        self.sample_id = self.sample_id.wrapping_add(1);
        let id: u64 = self.sample_id;
        let mut input_ids: Vec<usize> = Vec::new();
        input_ids.push((id % SAMPLE_VOCAB) as usize);
        input_ids.push(((id + 1) % SAMPLE_VOCAB) as usize);
        let mut target_ids: Vec<usize> = Vec::new();
        target_ids.push(((id + 2) % SAMPLE_VOCAB) as usize);
        target_ids.push(((id + 3) % SAMPLE_VOCAB) as usize);
        self.accum_current = (self.accum_current % ACCUM_TARGET) + 1;
        self.buffered = self.buffered + 1;
        let should_train: bool = self.buffered >= MICRO_BATCH;
        if should_train {
            self.buffered = 0;
        }
        assert(input_ids@ =~= seq![sample_token(id, 0), sample_token(id, 1)]);
        assert(target_ids@ =~= seq![sample_token(id, 2), sample_token(id, 3)]);
        Turn { input_ids, target_ids, accum_current: self.accum_current, should_train }
    }

    /// Counts a step of training and decides what follows from it. A loss that calls for a
    /// rollback gives up what was trained. Else every third step commits a version.
    pub fn trained(&mut self, rollback: bool) -> (action: LoopAction)
        requires
            old(self)@.well_formed(),
            old(self)@.total_steps < u64::MAX,
        ensures
            final(self)@.well_formed(),
            final(self)@.sample_id == old(self)@.sample_id,
            final(self)@.accum_current == old(self)@.accum_current,
            final(self)@.buffered == old(self)@.buffered,
            final(self)@.total_steps == old(self)@.total_steps + 1,
            ({
                let steps = old(self)@.total_steps + 1;
                if rollback {
                    &&& action is Rollback
                    &&& final(self)@.version_id == old(self)@.version_id
                } else if steps % COMMIT_EVERY as int == 0 {
                    let version_id = version_after(old(self)@.version_id);
                    &&& final(self)@.version_id == version_id
                    &&& action == (LoopAction::Commit {
                        from: old(self)@.version_id,
                        link: VersionLink { version_id, parent_version: parent_of(version_id) },
                    })
                } else {
                    &&& action is Continue
                    &&& final(self)@.version_id == old(self)@.version_id
                }
            }),
    {
        self.total_steps = self.total_steps + 1;
        if rollback {
            return LoopAction::Rollback;
        }
        if self.total_steps % COMMIT_EVERY == 0 {
            let from: u64 = self.version_id;
            self.version_id = self.version_id.wrapping_add(1);
            return LoopAction::Commit { from, link: version_link(self.version_id) };
        }
        LoopAction::Continue
    }
}

/// What a turn of the loop reports of its training.
#[derive(Debug, Clone, Copy, PartialEq, Eq)]
pub struct Readings<T> {
    pub loss: T,
    pub grad_norm: T,
    pub grad_scale_factor: T,
}

/// The numbers that readings come from: the sample as a number, its place in the cycle of scales,
/// the steps of training with the next one, the waves that the norm and the loss ride on, and the
/// fixed numbers around them.
pub struct ReadingNumbers<T> {
    pub sample: T,
    pub place: T,
    pub steps: T,
    pub one: T,
    pub scale_step: T,
    pub norm_base: T,
    pub norm_rate: T,
    pub norm_wave: T,
    pub norm_height: T,
    pub loss_top: T,
    pub loss_base: T,
    pub loss_rate: T,
    pub loss_wave: T,
    pub loss_height: T,
    pub loss_share: T,
}

/// Whether `numbers` are those of a sample after some steps of training.
pub open spec fn are_reading_numbers<T: Number>(
    sample_id: u64,
    total_steps: u64,
    numbers: ReadingNumbers<T>,
) -> bool {
    &&& number::is_count(sample_id, numbers.sample)
    &&& number::is_count((sample_id % SCALE_CYCLE) as u64, numbers.place)
    &&& number::is_count((total_steps + 1) as u64, numbers.steps)
    &&& number::is_one(numbers.one)
    &&& number::is_decimal(5, 2, numbers.scale_step)
    &&& number::is_decimal(2, 1, numbers.norm_base)
    &&& number::is_decimal(17, 2, numbers.norm_rate)
    &&& T::sine.ensures((numbers.sample.product(numbers.norm_rate),), numbers.norm_wave)
    &&& T::absolute.ensures((numbers.norm_wave,), numbers.norm_height)
    &&& number::is_decimal(18, 1, numbers.loss_top)
    &&& T::over.ensures((numbers.loss_top, numbers.steps), numbers.loss_base)
    &&& number::is_decimal(13, 2, numbers.loss_rate)
    &&& T::cosine.ensures((numbers.sample.product(numbers.loss_rate),), numbers.loss_wave)
    &&& T::absolute.ensures((numbers.loss_wave,), numbers.loss_height)
    &&& number::is_decimal(8, 2, numbers.loss_share)
}

/// The readings that some numbers make up.
pub open spec fn readings_of<T: Number>(numbers: ReadingNumbers<T>) -> Readings<T> {
    Readings {
        loss: numbers.loss_base.sum(numbers.loss_height.product(numbers.loss_share)),
        grad_norm: numbers.norm_base.sum(numbers.norm_height),
        grad_scale_factor: numbers.one.sum(numbers.place.product(numbers.scale_step)),
    }
}

/// Whether `readings` are those of a sample after some steps of training.
pub open spec fn are_readings<T: Number>(
    sample_id: u64,
    total_steps: u64,
    readings: Readings<T>,
) -> bool {
    exists|numbers: ReadingNumbers<T>|
        {
            &&& #[trigger] are_reading_numbers(sample_id, total_steps, numbers)
            &&& readings == readings_of(numbers)
        }
}

impl EvolutionLoop {
    /// What the turn that took the last sample in reports: a loss that falls with the steps of
    /// training, and a norm and a scale that come and go with the samples.
    pub fn readings<T: Number>(&self) -> (readings: Readings<T>)
        requires
            self@.total_steps < u64::MAX,
        ensures
            are_readings(self@.sample_id, self@.total_steps, readings),
    {
        let sample: T = count(self.sample_id);
        let place: T = count(self.sample_id % SCALE_CYCLE);
        let steps: T = count(self.total_steps + 1);
        let unit: T = one();
        let scale_step: T = decimal(5, 2);
        let norm_base: T = decimal(2, 1);
        let norm_rate: T = decimal(17, 2);
        let norm_wave: T = sample.times(norm_rate).sine();
        let norm_height: T = norm_wave.absolute();
        let loss_top: T = decimal(18, 1);
        let loss_base: T = loss_top.over(steps);
        let loss_rate: T = decimal(13, 2);
        let loss_wave: T = sample.times(loss_rate).cosine();
        let loss_height: T = loss_wave.absolute();
        let loss_share: T = decimal(8, 2);
        let ghost numbers = ReadingNumbers {
            sample,
            place,
            steps,
            one: unit,
            scale_step,
            norm_base,
            norm_rate,
            norm_wave,
            norm_height,
            loss_top,
            loss_base,
            loss_rate,
            loss_wave,
            loss_height,
            loss_share,
        };
        assert(are_reading_numbers(self@.sample_id, self@.total_steps, numbers));
        Readings {
            loss: loss_base.plus(loss_height.times(loss_share)),
            grad_norm: norm_base.plus(norm_height),
            grad_scale_factor: unit.plus(place.times(scale_step)),
        }
    }
}

/// Versions make up a chain: a committed version follows the one that served before it, as
/// long as the numbers do not wrap around.
pub proof fn law_versions_make_a_chain(before: u64)
    requires
        before < u64::MAX,
    ensures
        parent_of(version_after(before)) == Some(before),
{
}

/// The readings, over real numbers: what the loss is above a wave of at most eight hundredths
/// makes up one and four fifths, as often as steps of training were made and once more; the norm
/// lies a fifth above a wave of at most one; and the scale grows by a twentieth with every sample
/// of a cycle.
pub proof fn law_losses_fall_with_the_steps<T: Number>(
    reading: Reading<T>,
    sample_id: u64,
    total_steps: u64,
    readings: Readings<T>,
)
    requires
        reading.is_faithful(),
        total_steps < u64::MAX,
        are_readings(sample_id, total_steps, readings),
    ensures
        ({
            let sample = sample_id as real;
            let loss_wave = reals::magnitude(
                (reading.cos)(sample * (13real / 100real)),
            );
            let norm_wave = reals::magnitude(
                (reading.sin)(sample * (17real / 100real)),
            );
            &&& (reading.of(readings.loss) - loss_wave * (8real / 100real)) * ((total_steps
                + 1) as real) == 9real / 5real
            &&& reading.of(readings.grad_norm) == 1real / 5real + norm_wave
            &&& reading.of(readings.grad_scale_factor) == 1real + ((sample_id
                % SCALE_CYCLE) as real) * (1real / 20real)
        }),
{
    let numbers = choose|numbers: ReadingNumbers<T>|
        {
            &&& #[trigger] are_reading_numbers(sample_id, total_steps, numbers)
            &&& readings == readings_of(numbers)
        };
    assert(reals::pow(10real, 0) == 1real);
    assert(reals::pow(10real, 1) == reals::pow(10real, 0) * 10real);
    assert(reals::pow(10real, 2) == reals::pow(10real, 1) * 10real);
    assert(reals::pow(10real, 1) == 10real);
    assert(reals::pow(10real, 2) == 100real);
    assert(reading.reads(numbers.sample, sample_id as real));
    assert(reading.reads(numbers.scale_step, 1real / 20real));
    assert(reading.reads(numbers.norm_base, 1real / 5real));
    assert(reading.reads(numbers.norm_rate, 17real / 100real));
    assert(reading.reads(numbers.loss_top, 9real / 5real));
    assert(reading.reads(numbers.loss_rate, 13real / 100real));
    assert(reading.reads(numbers.loss_share, 8real / 100real));
    assert(reading.reads(numbers.place, (sample_id % SCALE_CYCLE) as real));
    let steps = (total_steps + 1) as real;
    assert(reading.reads(numbers.steps, steps));
    reals::lemma_quotient(9real / 5real, steps);
}

} // verus!
