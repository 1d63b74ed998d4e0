//! Inference: states, schedules, sessions, caches and constraints.

use sptorch::nn::constrained::allowed_mask;
use sptorch::nn::heads::{
    batch_transpose, causal_mask, reshape_from_heads, reshape_to_heads, BatchTransposeOp,
    ReshapeFromHeadsOp, ReshapeToHeadsOp,
};
use sptorch::nn::kv_cache::{KvCache, KvCacheSpec, KvTensor};
use sptorch::nn::scheduler::{
    InferenceAdmissionError, InferenceRequest, InferenceScheduler, InferenceSchedulerConfig,
};
use sptorch::nn::session::{decode_session_with, InferenceSession};
use sptorch::nn::state::{DecodeStopReason, GenerationConfig, InferenceState, Sampled};
use sptorch::nn::trie::{TokenConstraint, TokenTrie};

/// A model of `vocab` tokens that favours the token after the last one.
fn successor(vocab: usize) -> impl Fn(&InferenceState, &GenerationConfig) -> Sampled<usize> {
    move |state: &InferenceState, _config: &GenerationConfig| {
        let last = *state.context().last().unwrap();
        let next = (last + 1) % vocab;
        Sampled { candidates: vec![next], choice: Some(next) }
    }
}

/// Projects every token onto itself, for each layer.
fn projection(spec: KvCacheSpec) -> impl Fn(&[usize]) -> Vec<(KvTensor<f32>, KvTensor<f32>)> {
    move |tokens: &[usize]| {
        let tail = &tokens[tokens.len().saturating_sub(spec.max_context)..];
        let mut data = Vec::new();
        for _head in 0..spec.n_head {
            for token in tail {
                for _ in 0..spec.head_dim {
                    data.push(*token as f32);
                }
            }
        }
        let shape = vec![spec.n_head, tail.len(), spec.head_dim];
        let block = KvTensor { shape, data };
        (0..spec.n_layer).map(|_| (block.clone(), block.clone())).collect()
    }
}

#[test]
fn test_trie_basic() {
    let mut trie = TokenTrie::new();
    trie.insert(&[0, 1, 2]);
    trie.insert(&[0, 1, 3]);

    assert_eq!(trie.allowed_tokens(&[]), Some(vec![0]));

    assert_eq!(trie.allowed_tokens(&[0]), Some(vec![1]));

    let mut allowed = trie.allowed_tokens(&[0, 1]).unwrap();
    allowed.sort();
    assert_eq!(allowed, vec![2, 3]);

    assert_eq!(trie.allowed_tokens(&[0, 1, 2]), None);

    assert_eq!(trie.allowed_tokens(&[5]), None);
}

#[test]
fn test_trie_constraint_trait() {
    let mut trie = TokenTrie::new();
    trie.insert(&[10, 20]);
    trie.insert(&[10, 30]);

    let constraint = &trie;
    assert_eq!(constraint.allowed_next(&[]), Some(vec![10]));

    let mut allowed = constraint.allowed_next(&[10]).unwrap();
    allowed.sort();
    assert_eq!(allowed, vec![20, 30]);
}

#[test]
fn test_inference_state_tracks_prompt_generated_and_context_window() {
    let mut state = InferenceState::new(&[10, 11, 12], 4);
    state.push_token(13);
    state.push_token(14);

    assert_eq!(state.prompt_len(), 3);
    assert_eq!(state.generated_len(), 2);
    assert_eq!(state.tokens(), &[10, 11, 12, 13, 14]);
    assert_eq!(state.generated_tokens(), &[13, 14]);
    assert_eq!(state.context(), &[11, 12, 13, 14]);

    state.reset(&[7, 8]);
    assert_eq!(state.tokens(), &[7, 8]);
    assert!(state.generated_tokens().is_empty());
    assert_eq!(state.context(), &[7, 8]);
}

#[test]
fn test_kv_cache_appends_and_clips_sliding_window() {
    let mut cache = KvCache::new(KvCacheSpec::new(2, 3, 2, 2));
    assert_eq!(cache.layer_count(), 2);
    assert!(cache.is_empty());

    let key_prefill = KvTensor {
        data: vec![
            1.0, 1.1, 2.0, 2.1, //
            3.0, 3.1, 4.0, 4.1,
        ],
        shape: vec![2, 2, 2],
    };
    let value_prefill = KvTensor {
        data: vec![
            10.0, 10.1, 20.0, 20.1, //
            30.0, 30.1, 40.0, 40.1,
        ],
        shape: vec![2, 2, 2],
    };
    cache.prefill_layer(0, key_prefill, value_prefill);
    assert_eq!(cache.layer(0).unwrap().cached_len(), 2);

    let key_decode = KvTensor {
        data: vec![
            5.0, 5.1, 6.0, 6.1, //
            7.0, 7.1, 8.0, 8.1,
        ],
        shape: vec![2, 2, 2],
    };
    let value_decode = KvTensor {
        data: vec![
            50.0, 50.1, 60.0, 60.1, //
            70.0, 70.1, 80.0, 80.1,
        ],
        shape: vec![2, 2, 2],
    };
    cache.append_layer(0, key_decode, value_decode);

    let layer = cache.layer(0).unwrap();
    assert_eq!(layer.cached_len(), 3);
    assert_eq!(layer.key().as_ref().unwrap().shape, vec![2, 3, 2]);
    assert_eq!(
        layer.key().as_ref().unwrap().data,
        vec![
            2.0, 2.1, 5.0, 5.1, 6.0, 6.1, //
            4.0, 4.1, 7.0, 7.1, 8.0, 8.1,
        ]
    );
    assert_eq!(
        layer.value().as_ref().unwrap().data,
        vec![
            20.0, 20.1, 50.0, 50.1, 60.0, 60.1, //
            40.0, 40.1, 70.0, 70.1, 80.0, 80.1,
        ]
    );

    cache.reset_layer(0);
    assert!(cache.layer(0).unwrap().is_empty());
}

#[test]
fn test_inference_scheduler_batches_fifo_with_token_budget() {
    let mut scheduler = InferenceScheduler::new(InferenceSchedulerConfig::new(3, 10, 8));
    let config = GenerationConfig::greedy(2, 16);

    scheduler
        .enqueue(InferenceRequest::new(1, vec![1, 2], config, 0))
        .unwrap();
    scheduler
        .enqueue(InferenceRequest::new(2, vec![3, 4, 5], config, 1))
        .unwrap();
    scheduler
        .enqueue(InferenceRequest::new(3, vec![6, 7, 8], config, 2))
        .unwrap();

    let first = scheduler.plan_next_batch().unwrap();
    assert_eq!(first.request_ids(), vec![1, 2]);
    assert_eq!(first.total_token_budget, 9);
    assert_eq!(scheduler.pending_len(), 1);

    let second = scheduler.plan_next_batch().unwrap();
    assert_eq!(second.request_ids(), vec![3]);
    assert_eq!(second.total_token_budget, 5);
    assert!(scheduler.is_empty());
}

#[test]
fn test_inference_scheduler_rejects_queue_full() {
    let mut scheduler = InferenceScheduler::new(InferenceSchedulerConfig::new(2, 10, 1));
    let config = GenerationConfig::greedy(1, 8);

    scheduler.enqueue(InferenceRequest::new(1, vec![1], config, 0)).unwrap();
    let err = scheduler
        .enqueue(InferenceRequest::new(2, vec![2], config, 1))
        .unwrap_err();

    assert_eq!(err, InferenceAdmissionError::QueueFull);
    assert_eq!(scheduler.pending_len(), 1);
}

#[test]
fn test_inference_scheduler_rejects_request_too_large() {
    let mut scheduler = InferenceScheduler::new(InferenceSchedulerConfig::new(2, 4, 4));
    let config = GenerationConfig::greedy(3, 8);
    let err = scheduler
        .enqueue(InferenceRequest::new(1, vec![1, 2], config, 0))
        .unwrap_err();

    assert_eq!(err, InferenceAdmissionError::RequestTooLarge);
    assert!(scheduler.is_empty());
}

#[test]
fn test_inference_scheduler_respects_batch_size_limit() {
    let mut scheduler = InferenceScheduler::new(InferenceSchedulerConfig::new(2, 100, 8));
    let config = GenerationConfig::greedy(1, 8);
    for idx in 0..3 {
        scheduler
            .enqueue(InferenceRequest::new(idx + 1, vec![idx as usize], config, idx))
            .unwrap();
    }

    let batch = scheduler.plan_next_batch().unwrap();
    assert_eq!(batch.request_ids(), vec![1, 2]);
    assert_eq!(scheduler.pending_len(), 1);
}

#[test]
fn sessions_stop_at_the_end_token() {
    let config = GenerationConfig {
        eos_token_id: Some(3),
        ..GenerationConfig::greedy(9, 8)
    };
    let spec = KvCacheSpec::new(1, 2, 1, 1);
    let request = InferenceRequest::new(5, vec![1], config, 0);
    let mut session = InferenceSession::with_kv_cache_spec(request, spec);
    let project = projection(spec);
    session.prefill(&project);
    assert_eq!(session.request_id(), 5);
    let step = decode_session_with(&mut session, &project, &successor(8));
    assert_eq!(step.token_id, Some(2));
    let step = decode_session_with(&mut session, &project, &successor(8));
    assert_eq!(step.token_id, Some(3));
    assert_eq!(step.stop_reason, DecodeStopReason::EosToken);
    assert!(session.finished);
    assert_eq!(session.kv_cache.cached_len(), 2);
    let step = decode_session_with(&mut session, &project, &successor(8));
    assert_eq!(step.token_id, None);
    assert_eq!(session.tokens(), &[1, 2, 3]);
}

#[test]
fn sessions_start_over_with_a_new_request() {
    let config = GenerationConfig::greedy(1, 8);
    let spec = KvCacheSpec::new(1, 4, 1, 1);
    let project = projection(spec);
    let mut session =
        InferenceSession::with_kv_cache_spec(InferenceRequest::new(1, vec![1], config, 0), spec);
    session.prefill(&project);
    decode_session_with(&mut session, &project, &successor(8));
    session.reset(InferenceRequest::new(2, vec![4, 5], config, 1), &project);
    assert_eq!(session.request_id(), 2);
    assert_eq!(session.tokens(), &[4, 5]);
    assert!(session.generated_tokens().is_empty());
    assert!(!session.finished);
    assert_eq!(session.kv_cache.cached_len(), 2);
}

#[test]
fn heads_split_and_join() {
    // Two positions, two heads of two elements each.
    let data = [1, 2, 3, 4, 5, 6, 7, 8];
    let split = reshape_to_heads(&data, 2, 2, 2);
    assert_eq!(split, vec![1, 2, 5, 6, 3, 4, 7, 8]);
    assert_eq!(reshape_from_heads(&split, 2, 2, 2), data.to_vec());
    let op = ReshapeToHeadsOp { seq_len: 2, n_head: 2, head_dim: 2 };
    assert_eq!(op.backward(&split), data.to_vec());
    let op = ReshapeFromHeadsOp { seq_len: 2, n_head: 2, head_dim: 2 };
    assert_eq!(op.backward(&data), split);
}

#[test]
fn batches_transpose_one_by_one() {
    let data = [1, 2, 3, 4, 5, 6, 7, 8, 9, 10, 11, 12];
    let out = batch_transpose(&data, 2, 2, 3);
    assert_eq!(out, vec![1, 4, 2, 5, 3, 6, 7, 10, 8, 11, 9, 12]);
    let op = BatchTransposeOp { batch: 2, rows: 2, cols: 3 };
    assert_eq!(op.backward(&out), data.to_vec());
}

#[test]
fn the_mask_hides_the_future() {
    assert_eq!(
        causal_mask(1, 3),
        vec![false, true, true, false, false, true, false, false, false]
    );
    assert_eq!(causal_mask(2, 2).len(), 8);
}

#[test]
fn masks_follow_what_is_allowed() {
    assert_eq!(allowed_mask(&Some(vec![1, 9]), 3), vec![false, true, false]);
    assert_eq!(allowed_mask(&None, 2), vec![true, true]);
}
