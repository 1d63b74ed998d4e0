//! Training that goes on while the model serves.

use sptorch::live::double_buffer::DoubleBufferParams;
use sptorch::live::incremental::IncrementalTrainer;
use sptorch::live::runtime::{
    fence_error, fence_sequence, version_link, EvolutionLoop, FencePhase, LoopAction,
};
use sptorch::optim::schedule::Optimizer;

#[test]
fn test_double_buffer_initial_state() {
    let p = vec![vec![1.0, 2.0, 3.0]];
    let db = DoubleBufferParams::new(&p);
    assert_eq!(db.num_params(), 1);
    assert_eq!(db.active_params()[0], vec![1.0, 2.0, 3.0]);
    assert_eq!(db.shadow_params()[0], vec![1.0, 2.0, 3.0]);
}

#[test]
fn test_double_buffer_swap() {
    let p = vec![vec![1.0, 2.0]];
    let mut db = DoubleBufferParams::new(&p);

    db.write_shadow(0, vec![10.0, 20.0]);

    assert_eq!(db.active_params()[0], vec![1.0, 2.0]);

    db.swap();

    assert_eq!(db.active_params()[0], vec![10.0, 20.0]);
    assert_eq!(db.shadow_params()[0], vec![1.0, 2.0]);
}

#[test]
fn test_sync_shadow_from_active() {
    let p = vec![vec![5.0, 6.0]];
    let mut db = DoubleBufferParams::new(&p);

    db.write_shadow(0, vec![99.0, 6.0]);
    assert_eq!(db.shadow_params()[0][0], 99.0);

    db.sync_shadow_from_active();
    assert_eq!(db.shadow_params()[0], vec![5.0, 6.0]);
    assert_eq!(db.active_params_snapshot(), vec![vec![5.0, 6.0]]);
}

/// Counts its steps.
struct CountingOptimizer {
    steps: usize,
}

impl Optimizer for CountingOptimizer {
    fn step(&mut self) {
        self.steps += 1;
    }

    fn zero_grad(&self) {}
}

#[test]
fn test_incremental_trainer_buffering() {
    let mut trainer = IncrementalTrainer::new(CountingOptimizer { steps: 0 }, 3);

    assert!(!trainer.push_sample(vec![0, 1], vec![1, 2]));
    assert!(!trainer.push_sample(vec![2, 3], vec![3, 4]));
    assert_eq!(trainer.buffer_len(), 2);

    assert!(trainer.push_sample(vec![4, 5], vec![5, 6]));
    assert_eq!(trainer.buffer_len(), 3);

    let batch = trainer.drain_batch();
    assert_eq!(batch.len(), 3);
    assert_eq!(trainer.buffer_len(), 0);
}

#[test]
fn test_incremental_trainer_step_count() {
    let mut trainer = IncrementalTrainer::new(CountingOptimizer { steps: 0 }, 1);

    assert_eq!(trainer.total_steps(), 0);
    trainer.step_completed();
    assert_eq!(trainer.total_steps(), 1);
    trainer.step_completed();
    assert_eq!(trainer.total_steps(), 2);
}

#[test]
fn the_optimizer_is_lent_out() {
    let mut trainer = IncrementalTrainer::new(CountingOptimizer { steps: 0 }, 1);
    trainer.optimizer_mut().step();
    trainer.optimizer_mut().zero_grad();
    assert_eq!(trainer.optimizer_mut().steps, 1);
}

#[test]
fn fences_go_through_their_phases() {
    let reports = fence_sequence();
    let phases: Vec<FencePhase> = reports.iter().map(|r| r.phase).collect();
    assert_eq!(
        phases,
        vec![
            FencePhase::Prepare,
            FencePhase::WaitFence,
            FencePhase::Swap,
            FencePhase::Commit,
            FencePhase::Done,
        ]
    );
    assert_eq!(reports[1].progress_percent, 45);
    assert_eq!(reports[1].queue_depth, 6);
    assert_eq!(reports[1].message, "wait fence");
    assert!(reports.iter().all(|r| r.online()));
    assert!(!fence_error("rollback".to_string()).online());
}

#[test]
fn every_third_step_commits_the_next_version() {
    let mut state = EvolutionLoop::new();
    let mut commits = Vec::new();
    let mut trained = 0;
    while trained < 7 {
        let turn = state.next_turn();
        if !turn.should_train {
            continue;
        }
        trained += 1;
        if let LoopAction::Commit { from, link } = state.trained(false) {
            assert_eq!(link.parent_version, Some(from));
            commits.push((trained, from, link.version_id));
        }
    }
    assert_eq!(commits, vec![(3, 1, 2), (6, 2, 3)]);
    assert_eq!(state.version_id(), 3);
    assert_eq!(state.total_steps(), 7);
}

#[test]
fn rollbacks_keep_the_version() {
    let mut state = EvolutionLoop::new();
    assert_eq!(state.trained(false), LoopAction::Continue);
    assert_eq!(state.trained(false), LoopAction::Continue);
    assert_eq!(state.trained(true), LoopAction::Rollback);
    assert_eq!(state.version_id(), 1);
}

#[test]
fn batches_are_full_every_fourth_turn() {
    let mut state = EvolutionLoop::new();
    let mut flags = Vec::new();
    let mut accumulated = Vec::new();
    for _ in 0..9 {
        let turn = state.next_turn();
        flags.push(turn.should_train);
        accumulated.push(turn.accum_current);
    }
    assert_eq!(
        flags,
        vec![false, false, false, true, false, false, false, true, false]
    );
    assert_eq!(accumulated, vec![1, 2, 3, 4, 5, 6, 7, 8, 1]);
}

#[test]
fn samples_walk_through_the_tokens() {
    let turn = EvolutionLoop::new().next_turn();
    assert_eq!(turn.input_ids, vec![1, 2]);
    assert_eq!(turn.target_ids, vec![3, 4]);
}

#[test]
fn the_first_version_follows_none() {
    assert_eq!(version_link(0).parent_version, None);
    assert_eq!(version_link(5).parent_version, Some(4));
}
