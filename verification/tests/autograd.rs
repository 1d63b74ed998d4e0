//! Gradients through graphs of operations.

use sptorch::autograd::graph::{AddOp, Gradient, Graph, Op};
use sptorch::tensor::grad_mode::{set_grad_enabled, GradMode};

/// A dense gradient.
#[derive(Debug, Clone, PartialEq)]
struct Dense(Vec<f32>);

impl Gradient for Dense {
    fn accumulate(&mut self, other: &Self) {
        for (a, b) in self.0.iter_mut().zip(&other.0) {
            *a += b;
        }
    }

    fn copy(&self) -> Self {
        self.clone()
    }
}

/// Hands its gradient on.
struct PassThroughOp;

impl Op<Dense> for PassThroughOp {
    fn backward(&self, grad_output: &Dense) -> Vec<Option<Dense>> {
        vec![Some(grad_output.clone())]
    }
}

#[test]
fn test_autograd_basic() {
    let mut graph = Graph::new();
    let x = graph.leaf(true);
    let y = graph.leaf(true);
    let z = graph.apply(&GradMode::default(), AddOp, vec![x, y]);

    let grads = graph.backward_with_grad(z, Dense(vec![1.0]));

    assert_eq!(grads[x], Some(Dense(vec![1.0])));
    assert_eq!(grads[y], Some(Dense(vec![1.0])));
}

#[test]
fn test_chain_add() {
    let mut graph = Graph::new();
    let a = graph.leaf(true);
    let b = graph.leaf(true);
    let d = graph.leaf(true);
    let c = graph.apply(&GradMode::default(), AddOp, vec![a, b]);
    let e = graph.apply(&GradMode::default(), AddOp, vec![c, d]);

    let grads = graph.backward_with_grad(e, Dense(vec![1.0]));

    assert_eq!(grads[a], Some(Dense(vec![1.0])));
    assert_eq!(grads[b], Some(Dense(vec![1.0])));
    assert_eq!(grads[d], Some(Dense(vec![1.0])));
}

#[test]
fn test_diamond_graph() {
    let mut graph = Graph::new();
    let x = graph.leaf(true);
    let y = graph.leaf(true);
    let t = graph.apply(&GradMode::default(), AddOp, vec![x, y]);
    let z = graph.apply(&GradMode::default(), AddOp, vec![t, x]);

    let grads = graph.backward_with_grad(z, Dense(vec![1.0]));

    assert_eq!(grads[x], Some(Dense(vec![2.0])));
    assert_eq!(grads[y], Some(Dense(vec![1.0])));
}

#[test]
fn test_backward_with_explicit_seed() {
    let mut graph = Graph::new();
    let x = graph.leaf(true);
    let y = graph.leaf(true);
    let z = graph.apply(&GradMode::default(), AddOp, vec![x, y]);

    let grads = graph.backward_with_grad(z, Dense(vec![0.5, 2.0]));

    assert_eq!(grads[x], Some(Dense(vec![0.5, 2.0])));
    assert_eq!(grads[y], Some(Dense(vec![0.5, 2.0])));
}

#[test]
fn test_backward_with_grad_supports_non_scalar_output() {
    let mut graph = Graph::new();
    let t = graph.leaf(true);
    let out = graph.apply(&GradMode::default(), PassThroughOp, vec![t]);

    let grads = graph.backward_with_grad(out, Dense(vec![10.0, 20.0]));

    assert_eq!(grads[t], Some(Dense(vec![10.0, 20.0])));
}

#[test]
fn values_that_need_no_gradient_get_none() {
    let mut graph = Graph::new();
    let x = graph.leaf(true);
    let c = graph.leaf(false);
    let z = graph.apply(&GradMode::default(), AddOp, vec![x, c]);
    assert!(graph.requires_grad(z));
    assert!(!graph.requires_grad(c));

    let grads = graph.backward_with_grad(z, 3u64);

    assert_eq!(grads[x], Some(3));
    assert_eq!(grads[c], None);
}

#[test]
fn every_path_contributes_once() {
    let mut graph = Graph::new();
    let x = graph.leaf(true);
    let a = graph.apply(&GradMode::default(), AddOp, vec![x, x]);
    let b = graph.apply(&GradMode::default(), AddOp, vec![a, a]);
    let c = graph.apply(&GradMode::default(), AddOp, vec![b, a]);

    let grads = graph.backward_with_grad(c, 1u64);

    assert_eq!(grads[a], Some(3));
    assert_eq!(grads[x], Some(6));
}

#[test]
fn nothing_is_recorded_while_recording_is_off() {
    let mut mode = GradMode::default();
    let guard = set_grad_enabled(&mut mode, false);
    let mut graph = Graph::new();
    let x = graph.leaf(true);
    let z = graph.apply(&mode, AddOp, vec![x, x]);
    guard.restore(&mut mode);
    assert!(!graph.requires_grad(z));
    let grads = graph.backward_with_grad(z, 1u64);
    assert_eq!(grads[x], None);
}

#[test]
fn gradients_of_several_calls_add_up() {
    let mut graph = Graph::new();
    let x = graph.leaf(true);
    let frozen = graph.leaf(false);
    let y = graph.apply(&GradMode::default(), AddOp, vec![x, x]);
    let z = graph.apply(&GradMode::default(), AddOp, vec![y, frozen]);

    let mut grads: Vec<Option<u64>> = vec![Some(100), Some(7), None, None];
    graph.accumulate_grads(z, 1, &mut grads);
    assert_eq!(grads, vec![Some(102), Some(7), Some(1), Some(1)]);
    graph.accumulate_grads(y, 10, &mut grads);
    assert_eq!(grads, vec![Some(122), Some(7), Some(11), Some(1)]);
}

#[test]
fn recorded_values_keep_their_own_wish() {
    let mut graph = Graph::new();
    let x = graph.leaf(false);
    let y = graph.record(AddOp, vec![x, x], true);
    let silent = graph.record(AddOp, vec![y, y], false);
    assert!(graph.requires_grad(y));
    assert!(!graph.requires_grad(silent));
    let grads = graph.backward_with_grad(silent, 3u64);
    assert_eq!(grads, vec![None, Some(6), None]);
}
