//! Learning rates over the steps of a schedule.

use sptorch::optim::schedule::{CosineSchedule, LrPhase};

#[test]
fn phases_meet_at_their_ends() {
    let schedule = CosineSchedule::new(10, 30);
    assert_eq!(schedule.phase(9), LrPhase::Warmup { done: 9, of: 10 });
    assert_eq!(schedule.phase(10), LrPhase::Decay { done: 0, of: 20 });
    assert_eq!(schedule.phase(29), LrPhase::Decay { done: 19, of: 20 });
    assert_eq!(schedule.phase(30), LrPhase::Floor);
}
