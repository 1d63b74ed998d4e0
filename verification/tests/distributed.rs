//! Coordination, ring reduction and the wire format of gradients.

use sptorch::distributed::coordinator::CoordinatorState;
use sptorch::distributed::ring::ring_allreduce;
use sptorch::distributed::wire::{bytes_to_words, words_to_bytes};

#[test]
fn every_worker_ends_with_the_sum() {
    let mut grads = vec![vec![1u64, 2, 3, 4, 5], vec![10, 20, 30, 40, 50], vec![100, 200, 300, 400, 500]];
    ring_allreduce(&mut grads);
    for worker in &grads {
        assert_eq!(worker, &vec![111, 222, 333, 444, 555]);
    }
}

#[test]
fn a_single_worker_keeps_its_gradients() {
    let mut grads = vec![vec![7u64, 8]];
    ring_allreduce(&mut grads);
    assert_eq!(grads, vec![vec![7, 8]]);
}

#[test]
fn gradients_cross_the_wire_unchanged() {
    let words: Vec<u32> = [1.5f32, -2.0, 0.0].iter().map(|v| v.to_bits()).collect();
    let bytes = words_to_bytes(&words);
    assert_eq!(&bytes[..4], &1.5f32.to_le_bytes());
    assert_eq!(bytes_to_words(&bytes), words);
    assert_eq!(bytes_to_words(&[1, 0, 0, 0, 9]), vec![1]);
}

#[test]
fn workers_are_ranked_as_they_register() {
    let mut state = CoordinatorState::<u64>::new(2);
    let first = state.register("a:1".to_string());
    assert_eq!((first.rank, first.world_size), (0, 2));
    assert_eq!(first.peer_addresses, vec!["a:1".to_string()]);
    let second = state.register("b:2".to_string());
    assert_eq!(second.rank, 1);
    assert_eq!(second.peer_addresses, vec!["a:1".to_string(), "b:2".to_string()]);
}

#[test]
fn gradients_are_ready_when_every_worker_has_sent_them() {
    let mut state = CoordinatorState::<u64>::new(2);
    assert!(!state.submit_gradient(3, 2, &[1, 2]));
    assert!(!state.gradient_ready(3, 2));
    assert!(state.submit_gradient(3, 2, &[1, 2]));
    assert!(state.gradient_ready(3, 2));
    assert!(!state.gradient_ready(4, 2));
}

#[test]
fn the_barrier_opens_for_the_last_worker() {
    let mut state = CoordinatorState::<u64>::new(2);
    assert!(!state.arrive(7));
    assert!(state.arrive(7));
    assert_eq!(state.global_step(), 7);
    assert!(state.barrier_open());
}

#[test]
fn the_barrier_forgets_the_gradients_of_the_step() {
    let mut state = CoordinatorState::<u64>::new(1);
    assert!(state.submit_gradient(0, 1, &[1, 2]));
    assert!(state.arrive(1));
    assert!(!state.gradient_ready(0, 1));
}
