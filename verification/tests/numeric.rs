//! Arithmetic on single precision numbers: operators, gradients, descent and sampling.

use sptorch::autograd::check::numerical_grad_check;
use sptorch::autograd::graph::{Gradient, Graph, Op};
use sptorch::distributed::average::average_gradients;
use sptorch::distributed::coordinator::CoordinatorState;
use sptorch::distributed::ring::ring_allreduce;
use sptorch::hal::backend::CpuBackend;
use sptorch::hal::device::DeviceId;
use sptorch::hal::kernels::KernelProvider;
use sptorch::hal::topology::{
    AllReduceEstimate, HardwareLink, HardwareNode, HardwareTopology, LinkRole, TransportKind,
};
use sptorch::live::ewc::EWC;
use sptorch::live::monitor::{MonitorAction, TrainingMonitor};
use sptorch::live::runtime::EvolutionLoop;
use sptorch::nn::choice::sample_token;
use sptorch::nn::norm::RowNorm;
use sptorch::nn::rope::{Angle, RopeShape};
use sptorch::nn::sampling::{
    draw, nucleus_len, rank_tokens, sampling_candidates, scale_logit, score_key, TokenCandidate,
};
use sptorch::nn::state::GenerationConfig;
use sptorch::optim::adamw::AdamW;
use sptorch::optim::grads::{clip_grad_norm, clipping, scale_gradients, zero_grad};
use sptorch::optim::schedule::{CosineScheduler, LrScheduler};
use sptorch::optim::sgd::SGD;
use sptorch::tensor::arith;
use sptorch::tensor::arith::{ExpOp, MulOp, ScaleOp, Scalar};
use sptorch::tensor::dispatch::BackendRegistry;
use sptorch::tensor::dtype::Device;
use sptorch::tensor::grad::accum_grad;
use sptorch::tensor::grad_mode::GradMode;
use sptorch::tensor::layout::unbroadcast_grad;
use sptorch::tensor::linalg::{batch_matmul, matmul, BatchMatmulOp, MatmulOp};
use sptorch::tensor::number::{
    exp, gelu, gelu_numbers, log, mean, relu, GeluOp, LogOp, MeanOp, Number,
};
use sptorch::tensor::ops::{broadcast_add, embedding_lookup, transpose, BroadcastAddOp};
use sptorch::tensor::rows::{
    wanted_classes, LogSoftmaxOp, SoftmaxOp, TargetFault,
};
use sptorch::tensor::softmax::{
    cross_entropy_loss, exponential_shares, log_softmax, softmax, softmax_row,
};

/// A single precision number.
#[derive(Debug, Clone, Copy, PartialEq)]
struct Real(f32);

impl Scalar for Real {
    fn zero() -> Self {
        Real(0.0)
    }

    fn plus(self, other: Self) -> Self {
        Real(self.0 + other.0)
    }

    fn minus(self, other: Self) -> Self {
        Real(self.0 - other.0)
    }

    fn times(self, other: Self) -> Self {
        Real(self.0 * other.0)
    }

    fn is_sound(self) -> bool {
        self.0.is_finite()
    }
}

impl Number for Real {
    fn one() -> Self {
        Real(1.0)
    }

    fn count(n: u64) -> Self {
        Real(n as f32)
    }

    fn decimal(digits: u64, places: u32) -> Self {
        Real(format!("{digits}e-{places}").parse().unwrap())
    }

    fn from_bits(bits: u32) -> Self {
        Real(f32::from_bits(bits))
    }

    fn to_bits(self) -> u32 {
        self.0.to_bits()
    }

    fn pi() -> Self {
        Real(std::f32::consts::PI)
    }

    fn lowest() -> Self {
        Real(f32::NEG_INFINITY)
    }

    fn highest() -> Self {
        Real(f32::MAX)
    }

    fn greater(self, other: Self) -> Self {
        Real(self.0.max(other.0))
    }

    fn is_below(self, other: Self) -> bool {
        self.0 < other.0
    }

    fn reaches(self, other: Self) -> bool {
        self.0 >= other.0
    }

    fn is_positive(self) -> bool {
        self.0 > 0.0
    }

    fn is_negative(self) -> bool {
        self.0.is_sign_negative()
    }

    fn is_zero(self) -> bool {
        self.0 == 0.0
    }

    fn opposite(self) -> Self {
        Real(-self.0)
    }

    fn absolute(self) -> Self {
        Real(self.0.abs())
    }

    fn over(self, other: Self) -> Self {
        Real(self.0 / other.0)
    }

    fn root(self) -> Self {
        Real(self.0.sqrt())
    }

    fn power(self, n: u64) -> Self {
        Real(self.0.powi(n as i32))
    }

    fn raised(self, exponent: Self) -> Self {
        Real(self.0.powf(exponent.0))
    }

    fn exponential(self) -> Self {
        Real(self.0.exp())
    }

    fn logarithm(self) -> Self {
        Real(self.0.ln())
    }

    fn tangent(self) -> Self {
        Real(self.0.tanh())
    }

    fn sine(self) -> Self {
        Real(self.0.sin())
    }

    fn cosine(self) -> Self {
        Real(self.0.cos())
    }
}

fn reals(values: &[f32]) -> Vec<Real> {
    values.iter().map(|v| Real(*v)).collect()
}

fn floats(values: &[Real]) -> Vec<f32> {
    values.iter().map(|v| v.0).collect()
}

#[test]
fn test_add_forward() {
    let out = arith::add(&reals(&[1.0, 2.0]), &reals(&[3.0, 4.0]));
    assert_eq!(floats(&out), vec![4.0, 6.0]);
}

#[test]
fn test_mul_forward() {
    let out = arith::mul(&reals(&[2.0, 3.0]), &reals(&[4.0, 5.0]));
    assert_eq!(floats(&out), vec![8.0, 15.0]);
}

#[test]
fn test_sum_forward() {
    assert_eq!(arith::sum(&reals(&[1.0, 2.0, 3.0])), Real(6.0));
}

#[test]
fn test_cpu_backend_add() {
    let backend = CpuBackend;
    let a = reals(&[1.0, 2.0, 3.0]);
    let b = reals(&[4.0, 5.0, 6.0]);
    let mut out = reals(&[0.0; 3]);
    backend.add_f32(&a, &b, &mut out);
    assert_eq!(floats(&out), vec![5.0, 7.0, 9.0]);
}

#[test]
fn test_cpu_backend_neg() {
    let backend = CpuBackend;
    let a = reals(&[1.0, -2.0, 3.0]);
    let mut out = reals(&[0.0; 3]);
    backend.neg_f32(&a, &mut out);
    assert_eq!(floats(&out), vec![-1.0, 2.0, -3.0]);
}

#[test]
fn kernels_leave_what_lies_behind_their_results() {
    let backend = CpuBackend;
    let mut out = reals(&[9.0; 4]);
    backend.matmul_f32(&reals(&[2.0]), &reals(&[3.0, 4.0]), &mut out, 1, 1, 2);
    assert_eq!(floats(&out), vec![6.0, 8.0, 9.0, 9.0]);
    backend.broadcast_add_f32(&reals(&[1.0, 2.0, 3.0]), &reals(&[10.0, 20.0]), &mut out, 3, 2);
    assert_eq!(floats(&out), vec![11.0, 22.0, 13.0, 9.0]);
    assert_eq!(backend.sum_f32(&out), Real(55.0));
    backend.softmax_f32(&reals(&[5.0, 5.0]), &mut out, 2, 1);
    assert_eq!(floats(&out), vec![1.0, 1.0, 13.0, 9.0]);
}

#[test]
fn kernels_descend_as_optimizers_do() {
    let mut opt = AdamW::new(&[2], Real(0.1), Real(0.9), Real(0.999), Real(1e-8), Real(0.01));
    let mut weights = vec![reals(&[1.0, 2.0])];
    let grad = reals(&[0.5, -0.25]);
    opt.step(&mut weights, &vec![Some(grad.clone())]);
    let mut params = reals(&[1.0, 2.0]);
    let (mut m, mut v) = (reals(&[0.0; 2]), reals(&[0.0; 2]));
    CpuBackend.adam_update_f32(
        &mut params,
        &grad,
        &mut m,
        &mut v,
        Real(0.1),
        Real(0.9),
        Real(0.999),
        Real(1e-8),
        Real(0.01),
        Real(1.0 - 0.9),
        Real(1.0 - 0.999),
    );
    assert_eq!(params, weights[0]);
    assert_eq!((m, v), (opt.m[0].clone(), opt.v[0].clone()));
}

#[test]
fn test_cpu_backend_mul() {
    let backend = CpuBackend;
    let a = reals(&[2.0, 3.0]);
    let b = reals(&[4.0, 5.0]);
    let mut out = reals(&[0.0; 2]);
    backend.mul_f32(&a, &b, &mut out);
    assert_eq!(floats(&out), vec![8.0, 15.0]);
}

#[test]
fn test_matmul_forward() {
    let a = reals(&[1.0, 2.0, 3.0, 4.0, 5.0, 6.0]);
    let b = reals(&[7.0, 8.0, 9.0, 10.0, 11.0, 12.0]);
    assert_eq!(floats(&matmul(&a, &b, 2, 3, 2)), vec![58.0, 64.0, 139.0, 154.0]);
}

#[test]
fn test_cpu_backend_matmul() {
    let backend = CpuBackend;
    let a = reals(&[1.0, 2.0, 3.0, 4.0, 5.0, 6.0]);
    let b = reals(&[7.0, 8.0, 9.0, 10.0, 11.0, 12.0]);
    let mut out = reals(&[0.0; 4]);
    backend.matmul_f32(&a, &b, &mut out, 2, 3, 2);
    assert_eq!(floats(&out), vec![58.0, 64.0, 139.0, 154.0]);
}

#[test]
fn test_mul_backward() {
    let (x, y) = MulOp.backward(&reals(&[1.0]), &reals(&[3.0]), &reals(&[4.0]));
    assert_eq!(floats(&x), vec![4.0]);
    assert_eq!(floats(&y), vec![3.0]);
}

#[test]
fn exponentials_pull_by_their_own_value() {
    let out = ExpOp.backward(&reals(&[2.0, 1.0]), &reals(&[3.0, 5.0]));
    assert_eq!(floats(&out), vec![6.0, 5.0]);
}

#[test]
fn test_matmul_backward() {
    let a = reals(&[1.0, 2.0, 3.0, 4.0]);
    let b = reals(&[5.0, 6.0, 7.0, 8.0]);
    let (da, db) = MatmulOp { m: 2, k: 2, n: 2 }.backward(&reals(&[1.0; 4]), &a, &b);
    assert_eq!(floats(&da), vec![11.0, 15.0, 11.0, 15.0]);
    assert_eq!(floats(&db), vec![4.0, 4.0, 6.0, 6.0]);
}

#[test]
fn gradients_of_products_are_products_with_transposes() {
    let a = [1u64, 2, 3, 4, 5, 6];
    let b = [7u64, 8, 9, 10, 11, 12];
    let grad = [1u64, 2, 3, 4];
    let (da, db) = MatmulOp { m: 2, k: 3, n: 2 }.backward(&grad, &a, &b);
    assert_eq!(da, matmul(&grad, &transpose(&b, 3, 2), 2, 2, 3));
    assert_eq!(db, matmul(&transpose(&a, 2, 3), &grad, 3, 2, 2));
}

#[test]
fn test_batch_matmul_forward() {
    let a = reals(&[1.0, 2.0, 3.0, 4.0]);
    let b = reals(&[5.0, 6.0, 7.0, 8.0]);
    assert_eq!(floats(&batch_matmul(&a, &b, 1, 2, 2, 2)), vec![19.0, 22.0, 43.0, 50.0]);
}

#[test]
fn test_batch_matmul_multi_batch() {
    let a = reals(&[1.0, 0.0, 0.0, 1.0, 2.0, 0.0, 0.0, 2.0]);
    let b = reals(&[3.0, 4.0, 5.0, 6.0, 3.0, 4.0, 5.0, 6.0]);
    let d = floats(&batch_matmul(&a, &b, 2, 2, 2, 2));
    assert_eq!(&d[0..4], &[3.0, 4.0, 5.0, 6.0]);
    assert_eq!(&d[4..8], &[6.0, 8.0, 10.0, 12.0]);
}

#[test]
fn test_cpu_backend_batch_matmul() {
    let backend = CpuBackend;
    let a = reals(&[1.0, 2.0, 3.0, 4.0, 5.0, 6.0, 7.0, 8.0]);
    let b = reals(&[1.0, 0.0, 0.0, 1.0, 1.0, 0.0, 0.0, 1.0]);
    let mut out = reals(&[0.0; 8]);
    backend.batch_matmul_f32(&a, &b, &mut out, 2, 2, 2, 2);
    assert_eq!(out, a);
}

#[test]
fn batches_pull_pair_by_pair() {
    let a = [1u64, 2, 3, 4, 5, 6, 7, 8];
    let b = [8u64, 7, 6, 5, 4, 3, 2, 1];
    let grad = [1u64, 0, 2, 1, 1, 1, 0, 3];
    let (da, db) = BatchMatmulOp { batch: 2, m: 2, k: 2, n: 2 }.backward(&grad, &a, &b);
    let single = MatmulOp { m: 2, k: 2, n: 2 };
    for i in 0..2 {
        let at = i * 4..i * 4 + 4;
        let (x, y) = single.backward(&grad[at.clone()], &a[at.clone()], &b[at.clone()]);
        assert_eq!(&da[at.clone()], &x[..]);
        assert_eq!(&db[at], &y[..]);
    }
    assert!(batch_matmul(&a, &b, 0, 9, 9, 9).is_empty());
}

#[test]
fn test_scale_forward() {
    assert_eq!(
        floats(&arith::scale(&reals(&[1.0, 2.0, 3.0]), Real(2.0))),
        vec![2.0, 4.0, 6.0]
    );
}

#[test]
fn test_scale_backward() {
    let op = ScaleOp { scalar: Real(3.0) };
    assert_eq!(floats(&op.backward(&reals(&[1.0, 1.0]))), vec![3.0, 3.0]);
}

#[test]
fn test_cpu_backend_scale() {
    let backend = CpuBackend;
    let a = reals(&[1.0, 2.0, 3.0]);
    let mut out = reals(&[0.0; 3]);
    backend.scale_f32(&a, Real(0.5), &mut out);
    assert_eq!(floats(&out), vec![0.5, 1.0, 1.5]);
}

#[test]
fn test_broadcast_add_2d() {
    let a = reals(&[1.0, 2.0, 3.0, 4.0, 5.0, 6.0]);
    let b = reals(&[10.0, 20.0, 30.0]);
    let c = broadcast_add(&a, &b).unwrap();
    assert_eq!(floats(&c), vec![11.0, 22.0, 33.0, 14.0, 25.0, 36.0]);
    assert!(broadcast_add(&a, &reals(&[1.0; 4])).is_none());
}

#[test]
fn test_cpu_backend_broadcast_add() {
    let backend = CpuBackend;
    let a = reals(&[1.0, 2.0, 3.0, 4.0, 5.0, 6.0]);
    let b = reals(&[10.0, 20.0, 30.0]);
    let mut out = reals(&[0.0; 6]);
    backend.broadcast_add_f32(&a, &b, &mut out, 6, 3);
    assert_eq!(floats(&out), vec![11.0, 22.0, 33.0, 14.0, 25.0, 36.0]);
}

#[test]
fn test_broadcast_add_backward() {
    let op = BroadcastAddOp { b_shape: vec![3] };
    let (a, b) = op.backward(&reals(&[1.0; 6]));
    assert_eq!(floats(&a), vec![1.0; 6]);
    assert_eq!(floats(&b), vec![2.0, 2.0, 2.0]);
}

#[test]
fn gradients_of_any_length_fold_onto_the_shorter_tensor() {
    let op = BroadcastAddOp { b_shape: vec![3] };
    let (a, b) = op.backward(&reals(&[1.0, 2.0, 3.0, 4.0]));
    assert_eq!(a, reals(&[1.0, 2.0, 3.0, 4.0]));
    assert_eq!(b, reals(&[5.0, 2.0, 3.0]));
    let none = BroadcastAddOp { b_shape: vec![0] };
    assert_eq!(none.backward(&reals(&[])), (vec![], vec![]));
}

#[test]
fn test_unbroadcast_grad_reduces_expanded_axes() {
    let grad = reals(&[1.0, 2.0, 3.0, 4.0, 5.0, 6.0]);
    let reduced = unbroadcast_grad(&grad, &[2, 3], &[3]);
    assert_eq!(floats(&reduced), vec![5.0, 7.0, 9.0]);

    let scalar = unbroadcast_grad(&grad, &[2, 3], &[1]);
    assert_eq!(floats(&scalar), vec![21.0]);
}

#[test]
fn test_embedding_backward() {
    let w = reals(&[1.0, 2.0, 3.0, 4.0, 5.0, 6.0]);
    let (out, op) = embedding_lookup(&w, 3, 2, &[0, 2, 0]).unwrap();
    let g = op.backward(&reals(&vec![1.0; out.len()]));
    assert_eq!(floats(&g), vec![2.0, 2.0, 0.0, 0.0, 1.0, 1.0]);
}

#[test]
fn test_cpu_backend_embedding() {
    let backend = CpuBackend;
    let weight = reals(&[0.1, 0.2, 0.3, 0.4, 0.5, 0.6]);
    let indices = vec![2, 0, 1];
    let mut out = reals(&[0.0; 6]);
    backend.embedding_lookup_f32(&weight, &indices, &mut out, 3, 2);
    assert_eq!(floats(&out), vec![0.5, 0.6, 0.1, 0.2, 0.3, 0.4]);
}

#[test]
fn test_cpu_backend_masked_fill() {
    let backend = CpuBackend;
    let a = reals(&[1.0, 2.0, 3.0, 4.0]);
    let mask = vec![false, true, false, true];
    let mut out = reals(&[0.0; 4]);
    backend.masked_fill_f32(&a, &mask, Real(-999.0), &mut out);
    assert_eq!(floats(&out), vec![1.0, -999.0, 3.0, -999.0]);
}

#[test]
fn test_softmax_forward_1d() {
    let d = floats(&softmax(&reals(&[1.0, 2.0, 3.0]), &[3]).0);
    let total: f32 = d.iter().sum();
    assert!((total - 1.0).abs() < 1e-6);
    assert!(d[2] > d[1] && d[1] > d[0]);
}

#[test]
fn test_softmax_forward_2d() {
    let a = reals(&[1.0, 2.0, 3.0, 1.0, 2.0, 3.0]);
    let d = floats(&softmax(&a, &[2, 3]).0);
    let row0_sum: f32 = d[0..3].iter().sum();
    let row1_sum: f32 = d[3..6].iter().sum();
    assert!((row0_sum - 1.0).abs() < 1e-6);
    assert!((row1_sum - 1.0).abs() < 1e-6);
}

#[test]
fn test_softmax_backward() {
    let (s, op) = softmax(&reals(&[1.0, 2.0, 3.0]), &[3]);
    let g = op.backward(&s, &reals(&[1.0, 1.0, 1.0]));
    for v in floats(&g) {
        assert!(v.abs() < 1e-6);
    }
}

#[test]
fn normalised_rows_pull_by_their_deviation() {
    // Shares and gradients of two rows, in whole numbers.
    let g = SoftmaxOp { rows: 2, cols: 2, single: false }.backward(&[1u64, 2, 3, 4], &[10, 20, 30, 40]);
    let minus = |a: u64, b: u64| a.wrapping_sub(b);
    assert_eq!(g[0], minus(10, 50));
    assert_eq!(g[1], 2u64.wrapping_mul(minus(20, 50)));
    assert_eq!(g[2], 3u64.wrapping_mul(minus(30, 250)));
    let g = LogSoftmaxOp { rows: 2, cols: 2, single: false }.backward(&[1u64, 2, 3, 4], &[10, 20, 30, 40]);
    assert_eq!(g[0], minus(10, 30));
    assert_eq!(g[3], minus(40, 280));
}

#[test]
fn test_cross_entropy_forward_1d() {
    let a = reals(&[0.0, 0.0, 0.0]);
    let loss = cross_entropy_loss(&a, &[3], &[0]).unwrap();
    assert!((loss.loss.0 - (3.0f32).ln()).abs() < 1e-5);
}

#[test]
fn test_cross_entropy_forward_2d() {
    let a = reals(&[0.0, 0.0, 0.0, 0.0, 0.0, 0.0]);
    let loss = cross_entropy_loss(&a, &[2, 3], &[0, 1]).unwrap();
    let l = loss.loss.0;
    assert!((l - (3.0f32).ln()).abs() < 1e-5);
}

#[test]
fn test_cross_entropy_backward() {
    let a = reals(&[1.0, 2.0, 3.0]);
    let loss = cross_entropy_loss(&a, &[3], &[2]).unwrap();
    let g = floats(&loss.op.backward(&loss.shares, Real(1.0), Real(1.0)));
    let sum_g: f32 = g.iter().sum();
    assert!(sum_g.abs() < 1e-6);
}

#[test]
fn losses_pull_towards_the_wanted_class() {
    let a = reals(&[0.0, 0.0, 0.0, 0.0]);
    let loss = cross_entropy_loss(&a, &[2, 2], &[1, 0]).unwrap();
    let g = floats(&loss.op.backward(&loss.shares, Real(1.0), Real(0.5)));
    assert_eq!(g, vec![0.25, -0.25, -0.25, 0.25]);
}

#[test]
fn targets_are_held_against_the_scores() {
    assert_eq!(wanted_classes(&[3], &[2]), Ok(vec![2]));
    assert_eq!(wanted_classes(&[3], &[2, 9]), Ok(vec![2]));
    assert_eq!(wanted_classes(&[2, 3], &[0, 2]), Ok(vec![0, 2]));
    assert_eq!(wanted_classes(&[3], &[]), Err(TargetFault::Missing));
    assert_eq!(
        wanted_classes(&[2, 3], &[1]),
        Err(TargetFault::CountMismatch { expected: 2, got: 1 })
    );
    assert_eq!(
        wanted_classes(&[2, 3], &[4, 3]),
        Err(TargetFault::OutOfRange { target: 4, classes: 3 })
    );
}

#[test]
fn lists_are_combined_as_far_as_both_go() {
    let (long, short) = (reals(&[1.0, 2.0, 3.0]), reals(&[10.0, 20.0]));
    assert_eq!(arith::add(&long, &short), reals(&[11.0, 22.0]));
    assert_eq!(arith::mul(&short, &long), reals(&[10.0, 40.0]));
    assert_eq!(arith::sub(&short, &long), reals(&[9.0, 18.0]));
    let (a, b) = MulOp.backward(&short, &long, &long);
    assert_eq!((a.len(), b.len()), (2, 2));
}

#[test]
fn test_grad_check_add() {
    let inputs = vec![reals(&[2.0, 3.0]), reals(&[4.0, 5.0])];
    let value = |x: &Vec<Vec<Real>>| arith::sum(&arith::add(&x[0], &x[1]));
    let grads = |x: &Vec<Vec<Real>>| vec![vec![Real(1.0); x[0].len()], vec![Real(1.0); x[1].len()]];
    assert!(numerical_grad_check(&inputs, Real(1e-3), Real(1e-2), &value, &grads));
}

#[test]
fn test_grad_check_mul() {
    let inputs = vec![reals(&[2.0, 3.0]), reals(&[4.0, 5.0])];
    let value = |x: &Vec<Vec<Real>>| arith::sum(&arith::mul(&x[0], &x[1]));
    let grads = |x: &Vec<Vec<Real>>| {
        let (a, b) = MulOp.backward(&reals(&[1.0, 1.0]), &x[0], &x[1]);
        vec![a, b]
    };
    assert!(numerical_grad_check(&inputs, Real(1e-3), Real(1e-2), &value, &grads));
}

#[test]
fn test_grad_check_matmul() {
    let inputs = vec![reals(&[1.0, 2.0, 3.0, 4.0]), reals(&[5.0, 6.0, 7.0, 8.0])];
    let value = |x: &Vec<Vec<Real>>| arith::sum(&matmul(&x[0], &x[1], 2, 2, 2));
    let grads = |x: &Vec<Vec<Real>>| {
        let (a, b) = MatmulOp { m: 2, k: 2, n: 2 }.backward(&reals(&[1.0; 4]), &x[0], &x[1]);
        vec![a, b]
    };
    assert!(numerical_grad_check(&inputs, Real(1e-3), Real(1e-2), &value, &grads));
}

#[test]
fn functions_may_need_inputs_of_their_own_lengths() {
    let inputs = vec![reals(&[2.0, 3.0]), reals(&[4.0])];
    let value = |x: &Vec<Vec<Real>>| {
        assert_eq!((x.len(), x[0].len(), x[1].len()), (2, 2, 1));
        x[0][0].times(x[1][0])
    };
    let grads = |x: &Vec<Vec<Real>>| vec![vec![x[1][0], Real(0.0)], vec![x[0][0]]];
    assert!(numerical_grad_check(&inputs, Real(1e-3), Real(1e-2), &value, &grads));
}

#[test]
fn wrong_gradients_are_found_out() {
    let inputs = vec![reals(&[2.0, 3.0])];
    let value = |x: &Vec<Vec<Real>>| arith::sum(&arith::mul(&x[0], &x[0]));
    let grads = |x: &Vec<Vec<Real>>| vec![x[0].clone()];
    assert!(!numerical_grad_check(&inputs, Real(1e-3), Real(1e-2), &value, &grads));
}

#[test]
fn test_sgd_basic() {
    let mut params = vec![reals(&[1.0, 2.0])];
    let mut opt = SGD::new(1, Real(0.1), Real(0.0));
    opt.step(&mut params, &vec![Some(reals(&[0.1, 0.2]))]);
    let d = floats(&params[0]);
    assert!((d[0] - 0.99).abs() < 1e-6);
    assert!((d[1] - 1.98).abs() < 1e-6);
}

#[test]
fn test_cpu_backend_sgd_update() {
    let backend = CpuBackend;
    let mut params = reals(&[1.0, 2.0]);
    let grad = reals(&[0.1, 0.2]);
    backend.sgd_update_f32(&mut params, &grad, Real(0.1));
    assert!((params[0].0 - 0.99).abs() < 1e-6);
    assert!((params[1].0 - 1.98).abs() < 1e-6);
}

#[test]
fn test_sgd_momentum() {
    let mut params = vec![reals(&[1.0])];
    let mut opt = SGD::new(1, Real(0.1), Real(0.9));
    opt.step(&mut params, &vec![Some(reals(&[1.0]))]);
    assert!((params[0][0].0 - 0.9).abs() < 1e-6);
    opt.step(&mut params, &vec![Some(reals(&[1.0]))]);
    assert!((params[0][0].0 - 0.71).abs() < 1e-6);
    opt.set_lr(Real(0.0));
    opt.step(&mut params, &vec![Some(reals(&[1.0]))]);
    assert!((params[0][0].0 - 0.71).abs() < 1e-6);
}

#[test]
fn test_nan_guard() {
    let mut params = vec![reals(&[1.0])];
    let mut opt = SGD::new(1, Real(0.1), Real(0.0));
    opt.step(&mut params, &vec![Some(reals(&[f32::NAN]))]);
    assert_eq!(floats(&params[0]), vec![1.0]);
    opt.step(&mut params, &vec![None]);
    assert_eq!(floats(&params[0]), vec![1.0]);
}

/// Descent with the usual averages, without or with decay.
fn adamw(lens: &[usize], lr: f32, weight_decay: f32) -> AdamW<Real> {
    AdamW::new(lens, Real(lr), Real(0.9), Real(0.999), Real(1e-8), Real(weight_decay))
}

#[test]
fn test_adamw_basic() {
    let mut params = vec![reals(&[1.0, 2.0])];
    let mut opt = adamw(&[2], 0.001, 0.0);
    opt.step(&mut params, &vec![Some(reals(&[0.1, 0.2]))]);
    let d = floats(&params[0]);
    assert!(d[0] < 1.0);
    assert!(d[1] < 2.0);
    assert_eq!(opt.t, 1);
}

#[test]
fn test_adamw_weight_decay() {
    let mut params = vec![reals(&[1.0])];
    let mut opt = adamw(&[1], 0.1, 0.1);
    opt.step(&mut params, &vec![Some(reals(&[0.0]))]);
    assert!((params[0][0].0 - 0.99).abs() < 1e-6);
}

#[test]
fn averages_of_skipped_gradients_stay() {
    let mut params = vec![reals(&[1.0])];
    let mut opt = adamw(&[1], 0.1, 0.1);
    opt.step(&mut params, &vec![Some(reals(&[f32::INFINITY]))]);
    assert_eq!(floats(&params[0]), vec![1.0]);
    assert_eq!(floats(&opt.m[0]), vec![0.0]);
}

#[test]
fn the_first_step_goes_by_the_learning_rate() {
    let mut params = vec![reals(&[1.0, 2.0])];
    let mut opt = AdamW::default(&[2], Real(0.01));
    assert_eq!((opt.beta1, opt.beta2), (Real(0.9), Real(0.999)));
    assert_eq!((opt.eps, opt.weight_decay), (Real(1e-8), Real(0.01)));
    opt.step(&mut params, &vec![Some(reals(&[0.5, -0.25]))]);
    assert!((params[0][0].0 - (0.9999 - 0.01)).abs() < 1e-6);
    assert!((params[0][1].0 - (1.9998 + 0.01)).abs() < 1e-6);
    opt.set_lr(Real(0.0));
    let before = params.clone();
    opt.step(&mut params, &vec![Some(reals(&[0.5, -0.25]))]);
    assert_eq!(params, before);
    assert_eq!(opt.t, 2);
}

#[test]
fn test_zero_grad() {
    let mut grads = vec![Some(reals(&[0.5]))];
    zero_grad(&mut grads);
    assert!(grads[0].is_none());
}

#[test]
fn test_clip_grad_norm() {
    let mut grads = vec![Some(reals(&[3.0, 4.0]))];
    let norm = clip_grad_norm(&mut grads, Real(1.0)).0;
    assert!((norm - 5.0).abs() < 1e-5);
    let g = floats(grads[0].as_ref().unwrap());
    let clipped_norm: f32 = g.iter().map(|x| x * x).sum::<f32>().sqrt();
    assert!((clipped_norm - 1.0).abs() < 1e-4);
}

#[test]
fn test_clip_grad_norm_no_clip() {
    let mut grads = vec![Some(reals(&[0.3, 0.4])), None];
    let norm = clip_grad_norm(&mut grads, Real(10.0)).0;
    assert!((norm - 0.5).abs() < 1e-5);
    let g = floats(grads[0].as_ref().unwrap());
    assert!((g[0] - 0.3).abs() < 1e-6);
    assert!((g[1] - 0.4).abs() < 1e-6);
}

#[test]
fn test_gradient_accumulation_basic() {
    let mut params = vec![reals(&[1.0, 2.0])];
    let mut grads: Vec<Option<Vec<Real>>> = vec![None];
    let mut opt = SGD::new(1, Real(0.1), Real(0.0));

    for _ in 0..3 {
        accum_grad(&mut grads[0], &reals(&[1.0, 1.0]));
    }
    scale_gradients(&mut grads, Real(1.0 / 3.0));
    opt.step(&mut params, &grads);

    let w = floats(&params[0]);
    assert!((w[0] - 0.9).abs() < 1e-6);
    assert!((w[1] - 1.9).abs() < 1e-6);
}

#[test]
fn test_ewc_zero_penalty_at_snapshot() {
    let params = vec![reals(&[1.0, 2.0, 3.0]), reals(&[4.0, 5.0])];
    let grads = vec![reals(&[0.1, 0.2, 0.3]), reals(&[0.4, 0.5])];
    let ewc = EWC::new(&params, &grads, Real(1.0));

    let penalty = ewc.penalty(&params).0;
    assert!(penalty.abs() < 1e-10);
    assert_eq!(ewc.num_params(), 2);
}

#[test]
fn test_ewc_penalty_increases_with_drift() {
    let params = vec![reals(&[1.0, 2.0])];
    let grads = vec![reals(&[1.0, 1.0])];
    let ewc = EWC::new(&params, &grads, Real(2.0));

    let drifted = vec![reals(&[1.5, 2.5])];
    let penalty = ewc.penalty(&drifted).0;
    assert!((penalty - 0.5).abs() < 1e-6);
}

#[test]
fn test_ewc_penalty_grads() {
    let params = vec![reals(&[1.0, 2.0])];
    let grads = vec![reals(&[1.0, 2.0])];
    let ewc = EWC::new(&params, &grads, Real(1.0));

    let drifted = vec![reals(&[2.0, 3.0])];
    let pg = ewc.penalty_grads(&drifted);
    assert!((pg[0][0].0 - 1.0).abs() < 1e-6);
    assert!((pg[0][1].0 - 4.0).abs() < 1e-6);
}

#[test]
fn test_ewc_high_fisher_resists_change() {
    let params = vec![reals(&[1.0, 1.0])];
    let grads = vec![reals(&[10.0, 0.1])];
    let ewc = EWC::new(&params, &grads, Real(1.0));

    let drifted = vec![reals(&[2.0, 2.0])];
    let pg = ewc.penalty_grads(&drifted);
    assert!(pg[0][0].0 > pg[0][1].0 * 100.0);
}

#[test]
fn steps_go_as_far_as_the_gradients() {
    let mut sgd = SGD::new(1, Real(0.5), Real(1.0));
    let mut params = vec![reals(&[1.0, 2.0, 3.0])];
    sgd.step(&mut params, &vec![Some(reals(&[2.0, 4.0]))]);
    assert_eq!(params, vec![reals(&[0.0, 0.0, 3.0])]);
    sgd.step(&mut params, &vec![Some(reals(&[2.0]))]);
    assert_eq!(sgd.velocities, vec![Some(reals(&[4.0, 4.0]))]);
    assert_eq!(params, vec![reals(&[-2.0, -2.0, 3.0])]);

    let mut adam = AdamW::new(&[3], Real(0.1), Real(0.5), Real(0.5), Real(0.0), Real(0.0));
    let mut params = vec![reals(&[1.0, 1.0])];
    adam.step(&mut params, &vec![Some(reals(&[4.0, 4.0, 4.0]))]);
    assert_eq!(adam.m, vec![reals(&[2.0, 2.0, 2.0])]);
    assert!((params[0][1].0 - 0.9).abs() < 1e-6);
    adam.step(&mut params, &vec![Some(reals(&[4.0]))]);
    assert_eq!(adam.m, vec![reals(&[3.0, 2.0, 2.0])]);
}

#[test]
fn penalties_are_added_to_gradients_that_are_there() {
    let params = vec![reals(&[1.0]), reals(&[1.0])];
    let ewc = EWC::new(&params, &vec![reals(&[1.0]), reals(&[1.0])], Real(2.0));
    let mut grads = vec![Some(reals(&[0.5])), None];
    ewc.apply_penalty(&vec![reals(&[4.0]), reals(&[4.0])], &mut grads);
    assert_eq!(grads, vec![Some(reals(&[6.5])), None]);
}

#[test]
fn penalties_reach_as_far_as_the_parameters() {
    let params = vec![reals(&[1.0, 2.0]), reals(&[3.0])];
    let grads = vec![reals(&[2.0, 1.0]), reals(&[1.0]), reals(&[7.0])];
    let ewc = EWC::new(&params, &grads, Real(1.0));
    let fewer = vec![reals(&[3.0])];
    assert_eq!(ewc.penalty(&fewer), Real(8.0));
    assert_eq!(ewc.penalty_grads(&fewer), vec![reals(&[8.0])]);
    let mut held = vec![Some(reals(&[1.0, 1.0])), Some(reals(&[1.0]))];
    ewc.apply_penalty(&fewer, &mut held);
    assert_eq!(held, vec![Some(reals(&[9.0, 1.0])), Some(reals(&[1.0]))]);
}

#[test]
fn test_average_gradients() {
    let grads = vec![reals(&[1.0, 2.0, 3.0]), reals(&[3.0, 4.0, 5.0])];
    let avg = average_gradients(&grads);
    assert_eq!(floats(&avg), vec![2.0, 3.0, 4.0]);
}

#[test]
fn test_average_gradients_single() {
    let g = reals(&[1.0, 2.0]);
    let avg = average_gradients(&vec![g.clone()]);
    assert_eq!(avg, g);
}

#[test]
fn test_average_gradients_empty() {
    let avg = average_gradients::<Real>(&Vec::new());
    assert!(avg.is_empty());
}

/// How to choose from `vocab_size` tokens.
fn choice(
    vocab_size: usize,
    temperature: f32,
    top_k: usize,
    top_p: f32,
    repetition_penalty: f32,
) -> GenerationConfig {
    GenerationConfig {
        temperature: temperature.to_bits(),
        top_k,
        top_p: top_p.to_bits(),
        repetition_penalty: repetition_penalty.to_bits(),
        ..GenerationConfig::new(1, vocab_size)
    }
}

fn candidates(
    logits: &[f32],
    config: &GenerationConfig,
    history: &[usize],
) -> Vec<TokenCandidate<Real>> {
    let bits: Vec<u32> = logits.iter().map(|logit| logit.to_bits()).collect();
    sampling_candidates(&bits, config, history)
}

#[test]
fn test_sampling_candidates_apply_top_p_after_probability_sort() {
    let config = choice(4, 1.0, 0, 0.75, 1.0);
    let candidates = candidates(&[3.0, 2.0, 1.0, 0.0], &config, &[]);
    let ids: Vec<usize> = candidates.iter().map(|candidate| candidate.token_id).collect();
    let prob_sum: f32 = candidates.iter().map(|candidate| candidate.probability.0).sum();

    assert_eq!(ids, vec![0, 1]);
    assert!((prob_sum - 1.0).abs() < 1e-6);
}

#[test]
fn test_sampling_candidates_repetition_penalty_can_suppress_seen_token() {
    let config = choice(3, 1.0, 1, 1.0, 3.0);
    let candidates = candidates(&[3.0, 2.5, 1.0], &config, &[0]);

    assert_eq!(candidates.len(), 1);
    assert_eq!(candidates[0].token_id, 1);
}

#[test]
fn keys_are_ordered_as_scores_are() {
    let scores = [f32::MIN, -2.5, -1e-30, 0.0, 1e-30, 1.0, 2.5, f32::MAX];
    let keys: Vec<u32> = scores.iter().map(|s| score_key(s.to_bits()).unwrap()).collect();
    assert!(keys.windows(2).all(|w| w[0] < w[1]));
    assert_eq!(score_key((-0.0f32).to_bits()), score_key(0.0f32.to_bits()));
    assert_eq!(score_key(f32::NEG_INFINITY.to_bits()), None);
    assert_eq!(score_key(f32::NAN.to_bits()), None);
}

#[test]
fn equal_scores_go_by_number() {
    let keys = vec![Some(5), None, Some(7), Some(5), Some(7)];
    assert_eq!(rank_tokens(&keys, 0), vec![2, 4, 0, 3]);
    assert_eq!(rank_tokens(&keys, 3), vec![2, 4, 0]);
    assert_eq!(rank_tokens(&keys, 9), vec![2, 4, 0, 3]);
}

#[test]
fn draws_go_by_weight() {
    let weights = reals(&[0.5, 0.25, 0.25]);
    assert_eq!(draw(&weights, Real(0.0)), Some(0));
    assert_eq!(draw(&weights, Real(0.5)), Some(0));
    assert_eq!(draw(&weights, Real(0.6)), Some(1));
    assert_eq!(draw(&weights, Real(0.9)), Some(2));
    assert_eq!(draw(&weights, Real(1.5)), Some(2));
    assert_eq!(draw::<Real>(&[], Real(0.5)), None);
}

#[test]
fn the_nucleus_is_the_shortest_beginning_that_is_enough() {
    let weights = reals(&[0.5, 0.25, 0.25]);
    assert_eq!(nucleus_len(&weights, Real(0.0)), 1);
    assert_eq!(nucleus_len(&weights, Real(0.75)), 2);
    assert_eq!(nucleus_len(&weights, Real(2.0)), 3);
    assert_eq!(nucleus_len(&reals(&[]), Real(0.0)), 0);
}

#[test]
fn infinite_scores_are_no_candidates() {
    let config = choice(4, 0.5, 0, 1.0, 1.0);
    let list = candidates(&[f32::NEG_INFINITY, 1.0, f32::NAN, 1.0], &config, &[]);
    let ids: Vec<usize> = list.iter().map(|candidate| candidate.token_id).collect();
    assert_eq!(ids, vec![1, 3]);
    assert!(list.iter().all(|candidate| candidate.logit == 2.0f32.to_bits()));
    assert!(list.iter().all(|candidate| candidate.probability == Real(0.5)));
    assert!(candidates(&[f32::NEG_INFINITY; 4], &config, &[]).is_empty());
}

#[test]
fn test_rope_keeps_position_zero_and_rotates_later_positions() {
    let input = reals(&[1.0, 2.0, 3.0, 4.0, 1.0, 0.0, 0.0, 1.0]);
    let shape = RopeShape { n_head: 1, seq_len: 2, head_dim: 4 };
    let out = shape.turn(&input, &shape.angles(Real(10000.0), false));
    assert_eq!(&out[..4], &reals(&[1.0, 2.0, 3.0, 4.0])[..]);
    assert!((out[4].0 - 1.0).abs() > 1e-3 || out[5].0.abs() > 1e-3);
}

#[test]
fn turning_back_restores_the_elements() {
    let input = reals(&[1.0, 2.0, 3.0, 4.0, 1.0, 0.0, 0.0, 1.0]);
    let shape = RopeShape { n_head: 1, seq_len: 2, head_dim: 4 };
    let there = shape.turn(&input, &shape.angles(Real(10000.0), false));
    let back = shape.turn(&there, &shape.angles(Real(10000.0), true));
    for (x, y) in back.iter().zip(&input) {
        assert!((x.0 - y.0).abs() < 1e-6);
    }
}

#[test]
fn later_pairs_turn_more_slowly() {
    let shape = RopeShape { n_head: 1, seq_len: 3, head_dim: 4 };
    let angles = shape.angles(Real(100.0), false);
    assert_eq!(angles.len(), 6);
    assert_eq!(angles[0].cos, Real(1.0));
    assert_eq!(angles[2].sin, Real(1.0f32.sin()));
    assert_eq!(angles[4].cos, Real(2.0f32.cos()));
    assert!((angles[5].sin.0 - 0.2f32.sin()).abs() < 1e-6);
    let back = shape.angles(Real(100.0), true);
    assert_eq!(back[4].cos, angles[4].cos);
    assert_eq!(back[4].sin, Real(-angles[4].sin.0));
}

#[test]
fn scores_are_scaled_by_repetition_and_temperature() {
    let scale = |logit: f32, seen: bool, penalty: f32, temperature: f32| {
        scale_logit(Real(logit), seen, Real(penalty), Real(temperature)).0
    };
    assert_eq!(scale(3.0, true, 2.0, 0.5), 3.0);
    assert_eq!(scale(-3.0, true, 2.0, 0.5), -12.0);
    assert_eq!(scale(3.0, false, 2.0, 0.5), 6.0);
    assert_eq!(scale(3.0, true, 0.25, 1.0), 3.0);
    assert!((scale(1.0, false, 1.0, 0.0) / 1e8 - 1.0).abs() < 1e-6);
}

#[test]
fn pairs_turn_by_the_angle_of_their_position() {
    let shape = RopeShape { n_head: 2, seq_len: 2, head_dim: 2 };
    let quarter = Angle { cos: 0u64, sin: 1u64 };
    let none = Angle { cos: 1u64, sin: 0u64 };
    let out = shape.turn(&[1, 2, 3, 4, 5, 6, 7, 8], &[none, quarter]);
    let minus = |x: u64| 0u64.wrapping_sub(x);
    assert_eq!(out, vec![1, 2, minus(4), 3, 5, 6, minus(8), 7]);
}

#[test]
fn rows_are_stretched_and_shifted() {
    let op = RowNorm { dim: 2, centred: true };
    let data = reals(&[1.0, 3.0, 10.0, 18.0, 5.0]);
    let (out, held) = op.layer_norm(&data, &reals(&[10.0, 20.0]), &reals(&[1.0, 2.0]), Real(0.0));
    assert_eq!(held.values, reals(&[-1.0, 1.0, -1.0, 1.0, 0.0]));
    assert_eq!(out, reals(&[-9.0, 22.0, -9.0, 22.0, 0.0]));
    let grads = op.backward(&reals(&[1.0, 2.0, 3.0, 4.0, 8.0]), &held, &reals(&[1.0, 1.0, 7.0]));
    assert_eq!(grads.shift, reals(&[4.0, 6.0]));
    assert_eq!(grads.gain, reals(&[-4.0, 6.0]));
    assert_eq!(grads.input[4], Real(0.0));
    let (short, _) = op.layer_norm(&reals(&[4.0]), &[], &[], Real(0.0));
    assert_eq!(short, reals(&[0.0]));
}

/// Chooses from the scores of the last position, without any scaling.
fn chosen(logits: &[f32], allowed: Option<Vec<usize>>, threshold: f32) -> Option<usize> {
    let bits: Vec<u32> = logits.iter().map(|logit| logit.to_bits()).collect();
    let config = GenerationConfig::new(1, 3);
    sample_token(&bits, &config, &[], &allowed, Real(threshold)).choice
}

#[test]
fn parts_outside_of_the_whole_are_moved_into_it() {
    let logits = [3.0, 2.0, 1.0, 0.0];
    assert_eq!(candidates(&logits, &choice(4, 1.0, 0, -1.0, 1.0), &[]).len(), 1);
    assert_eq!(candidates(&logits, &choice(4, 1.0, 0, 7.0, 1.0), &[]).len(), 4);
    assert_eq!(candidates(&logits, &choice(4, 1.0, 0, f32::NAN, 1.0), &[]).len(), 4);
}

#[test]
fn only_the_vocabulary_is_chosen_from() {
    let list = candidates(&[1.0, 2.0, 9.0], &choice(2, 1.0, 0, 1.0, 1.0), &[]);
    let ids: Vec<usize> = list.iter().map(|candidate| candidate.token_id).collect();
    assert_eq!(ids, vec![1, 0]);
}

#[test]
fn the_last_position_is_chosen_from() {
    let logits = [9.0, 0.0, 0.0, 0.0, 1.0, 8.0];
    assert_eq!(chosen(&logits, None, 0.0), Some(2));
    assert_eq!(chosen(&logits, None, 0.99999), Some(0));
}

#[test]
fn tokens_that_are_left_out_are_never_chosen() {
    let logits = [0.0, 1.0, 8.0];
    for threshold in [0.0, 0.25, 0.5, 0.75, 1.0] {
        assert_eq!(chosen(&logits, Some(vec![1]), threshold), Some(1));
    }
    assert_eq!(chosen(&logits, Some(vec![]), 0.5), None);
    assert_eq!(chosen(&logits, Some(vec![7]), 0.5), None);
}

#[test]
fn rows_are_normalised_by_their_own_spread() {
    let op = RowNorm { dim: 2, centred: true };
    let normalized = op.normalize(&reals(&[1.0, 3.0, 10.0, 18.0]), Real(0.0));
    assert_eq!(normalized.values, reals(&[-1.0, 1.0, -1.0, 1.0]));
    assert_eq!(normalized.spreads[1].center, Real(14.0));
    assert_eq!(normalized.spreads[1].variance, Real(16.0));
    assert_eq!(normalized.spreads[1].inverse, Real(0.25));

    let gain = reals(&[2.0, 3.0]);
    let grads = op.backward(&reals(&[1.0, 0.0, 0.0, 4.0]), &normalized, &gain);
    assert_eq!(grads.gain, reals(&[-1.0, 4.0]));
    assert_eq!(grads.shift, reals(&[1.0, 4.0]));
    assert_eq!(grads.input, reals(&[0.0, 0.0, 0.0, 0.0]));
}

#[test]
fn rows_around_zero_keep_their_mean() {
    let op = RowNorm { dim: 2, centred: false };
    let normalized = op.normalize(&reals(&[1.0, 7.0]), Real(0.0));
    assert_eq!(normalized.values, reals(&[0.2, 1.4]));
    let grads = op.backward(&reals(&[7.0, -1.0]), &normalized, &reals(&[1.0, 1.0]));
    assert_eq!(grads.gain, reals(&[1.4, -1.4]));
    assert!((grads.input[0].0 - 1.4).abs() < 1e-6);
    assert!((grads.input[1].0 + 0.2).abs() < 1e-6);
}

#[test]
fn test_sub_forward() {
    let out = arith::sub(&reals(&[5.0, 3.0]), &reals(&[2.0, 1.0]));
    assert_eq!(floats(&out), vec![3.0, 2.0]);
}

#[test]
fn means_are_shared_by_what_they_were_taken_of() {
    let g = MeanOp { input_shape: vec![3], numel: 4 }.backward(Real(8.0));
    assert_eq!(g, reals(&[2.0, 2.0, 2.0]));
}

#[test]
fn slopes_go_as_far_as_the_inputs() {
    assert_eq!(LogOp.backward(&reals(&[1.0, 2.0, 3.0]), &reals(&[2.0, 4.0])), reals(&[0.5, 0.5]));
    let op = GeluOp { numbers: gelu_numbers() };
    assert_eq!(op.backward(&reals(&[1.0]), &reals(&[0.0, 0.0])), reals(&[0.5]));
}

#[test]
fn gradients_of_a_single_row_may_have_any_length() {
    let op = SoftmaxOp { rows: 1, cols: 3, single: true };
    let minus = |x: u64| 0u64.wrapping_sub(x);
    assert_eq!(op.backward(&[1u64, 2, 3], &[10, 20]), vec![minus(40), minus(60)]);
    let op = LogSoftmaxOp { rows: 1, cols: 2, single: true };
    assert_eq!(op.backward(&[1u64, 2], &[10, 20, 30]), vec![minus(50), minus(100)]);
    let op = LogSoftmaxOp { rows: 1, cols: 2, single: false };
    assert_eq!(op.backward(&[1u64, 2], &[10, 20, 30]), vec![minus(20), minus(40)]);
}

#[test]
fn one_dimension_is_one_row_of_all_elements() {
    let data = reals(&[0.0, 0.0, 0.0, 0.0]);
    let (out, op) = softmax(&data, &[3]);
    assert_eq!(out, reals(&[0.25; 4]));
    assert_eq!((op.rows, op.cols), (1, 4));
    let (found, _) = log_softmax(&data, &[5]);
    assert_eq!(found.shares, reals(&[0.25; 4]));
    let loss = cross_entropy_loss(&data, &[2], &[1]).unwrap();
    assert_eq!(loss.shares.len(), 4);
    assert_eq!(loss.loss, Real(4.0f32.ln()));
    assert!(cross_entropy_loss(&data, &[2], &[2]).is_err());
    let (two, _) = softmax(&data, &[1, 2]);
    assert_eq!(two, reals(&[0.5, 0.5]));
}

#[test]
fn turns_leave_nothing_behind_the_heads() {
    let shape = RopeShape { n_head: 1, seq_len: 1, head_dim: 2 };
    let quarter = Angle { cos: 0u64, sin: 1u64 };
    assert_eq!(shape.turn(&[1, 2, 9], &[quarter]), vec![0u64.wrapping_sub(2), 1, 0]);
    let none = RopeShape { n_head: 3, seq_len: 0, head_dim: 4 };
    assert!(none.angles(Real(100.0), false).is_empty());
    assert!(none.turn(&reals(&[]), &[]).is_empty());
    let flat = RopeShape { n_head: 3, seq_len: 2, head_dim: 0 };
    assert!(flat.angles(Real(100.0), true).is_empty());
}

#[test]
fn parameters_move_one_by_one() {
    let mut sgd = SGD::new(2, Real(1.0), Real(0.0));
    let mut shared = reals(&[10.0]);
    sgd.step_one(0, &mut shared, &Some(reals(&[1.0])));
    sgd.step_one(1, &mut shared, &Some(reals(&[2.0])));
    assert_eq!(shared, reals(&[7.0]));

    let mut together = AdamW::new(&[1, 1], Real(0.1), Real(0.9), Real(0.99), Real(0.0), Real(0.1));
    let mut apart = together.clone();
    let mut params = vec![reals(&[1.0]), reals(&[2.0])];
    let mut alone = params.clone();
    let grads = vec![Some(reals(&[3.0])), None];
    together.step(&mut params, &grads);
    let numbers = apart.begin_step();
    for i in 0..2 {
        apart.step_one(numbers, i, &mut alone[i], &grads[i]);
    }
    assert_eq!(params, alone);
    assert_eq!(together, apart);
    assert_eq!(apart.t, 1);
}

#[test]
fn clipping_says_how_much() {
    let grads = vec![Some(reals(&[3.0])), None, Some(reals(&[4.0]))];
    let (norm, by) = clipping(&grads, Real(10.0));
    assert_eq!((norm, by), (Real(5.0), None));
    let (_, by) = clipping(&grads, Real(1.0));
    assert!((by.unwrap().0 - 0.2).abs() < 1e-6);
}

#[test]
fn test_mean_forward() {
    assert_eq!(mean(&reals(&[2.0, 4.0, 6.0])), Real(4.0));
}

#[test]
fn test_mean_backward() {
    let g = floats(&MeanOp { input_shape: vec![3], numel: 3 }.backward(Real(1.0)));
    assert_eq!(g.len(), 3);
    let expected = 1.0 / 3.0;
    for v in &g {
        assert!((v - expected).abs() < 1e-6);
    }
}

#[test]
fn test_exp_forward() {
    let r = floats(&exp(&reals(&[0.0, 1.0])));
    assert!((r[0] - 1.0).abs() < 1e-6);
    assert!((r[1] - std::f32::consts::E).abs() < 1e-5);
}

#[test]
fn test_log_forward() {
    let r = floats(&log(&reals(&[1.0, std::f32::consts::E])));
    assert!((r[0] - 0.0).abs() < 1e-6);
    assert!((r[1] - 1.0).abs() < 1e-5);
}

#[test]
fn test_relu_forward() {
    let (out, op) = relu(&reals(&[-1.0, 0.0, 1.0, 2.0]));
    assert_eq!(floats(&out), vec![0.0, 0.0, 1.0, 2.0]);
    assert_eq!(op.mask, vec![false, false, true, true]);
}

#[test]
fn test_gelu_forward() {
    let d = floats(&gelu(&reals(&[-1.0, 0.0, 1.0, 2.0]), &gelu_numbers()));
    assert!((d[1] - 0.0).abs() < 1e-6);
    assert!(d[0] < 0.0);
    assert!(d[2] > 0.8);
}

#[test]
fn test_cpu_backend_exp_log() {
    let backend = CpuBackend;
    let a = [0.0f32, 1.0, 2.0];
    let mut exp_out = reals(&[0.0; 3]);
    backend.exp_f32(&reals(&a), &mut exp_out);
    assert!((exp_out[0].0 - 1.0).abs() < 1e-6);
    assert!((exp_out[1].0 - std::f32::consts::E).abs() < 1e-5);

    let mut log_out = reals(&[0.0; 3]);
    backend.log_f32(&exp_out, &mut log_out);
    for i in 0..3 {
        assert!((log_out[i].0 - a[i]).abs() < 1e-5);
    }
}

#[test]
fn test_cpu_backend_relu() {
    let backend = CpuBackend;
    let a = reals(&[-1.0, 0.0, 2.0, -0.5]);
    let mut out = reals(&[0.0; 4]);
    backend.relu_f32(&a, &mut out);
    assert_eq!(floats(&out), vec![0.0, 0.0, 2.0, 0.0]);
}

#[test]
fn test_cpu_backend_gelu() {
    let backend = CpuBackend;
    let a = reals(&[0.0, 1.0, -1.0]);
    let mut out = reals(&[0.0; 3]);
    backend.gelu_f32(&a, &mut out);
    assert!((out[0].0 - 0.0).abs() < 1e-6);
    assert!((out[1].0 - 0.8413).abs() < 1e-3);
    assert!((out[2].0 - (-0.1587)).abs() < 1e-3);
}

#[test]
fn test_cpu_backend_softmax() {
    let backend = CpuBackend;
    let a = reals(&[1.0, 2.0, 3.0]);
    let mut out = reals(&[0.0; 3]);
    backend.softmax_f32(&a, &mut out, 1, 3);
    let sum: f32 = floats(&out).iter().sum();
    assert!((sum - 1.0).abs() < 1e-6);
    assert!(out[2].0 > out[1].0 && out[1].0 > out[0].0);
}

#[test]
fn test_log_softmax_forward() {
    let a = reals(&[1.0, 2.0, 3.0]);
    let ls_data = floats(&log_softmax(&a, &[3]).0.logs);
    let s_data = floats(&softmax(&a, &[3]).0);
    for (l, s) in ls_data.iter().zip(s_data.iter()) {
        assert!((l - s.ln()).abs() < 1e-5);
    }
}

#[test]
fn rows_without_weight_are_shared_evenly() {
    // Numbers whose exponentials all vanish.
    #[derive(Debug, Clone, Copy, PartialEq)]
    struct Faint(f32);
    impl Scalar for Faint {
        fn zero() -> Self {
            Faint(0.0)
        }
        fn plus(self, other: Self) -> Self {
            Faint(self.0 + other.0)
        }
        fn minus(self, other: Self) -> Self {
            Faint(self.0 - other.0)
        }
        fn times(self, other: Self) -> Self {
            Faint(self.0 * other.0)
        }
        fn is_sound(self) -> bool {
            true
        }
    }
    impl Number for Faint {
        fn one() -> Self {
            Faint(1.0)
        }
        fn count(n: u64) -> Self {
            Faint(n as f32)
        }
        fn decimal(digits: u64, places: u32) -> Self {
            Faint(format!("{digits}e-{places}").parse().unwrap())
        }
        fn from_bits(bits: u32) -> Self {
            Faint(f32::from_bits(bits))
        }
        fn to_bits(self) -> u32 {
            self.0.to_bits()
        }
        fn pi() -> Self {
            Faint(std::f32::consts::PI)
        }
        fn lowest() -> Self {
            Faint(f32::NEG_INFINITY)
        }
        fn highest() -> Self {
            Faint(f32::MAX)
        }
        fn greater(self, other: Self) -> Self {
            Faint(self.0.max(other.0))
        }
        fn is_below(self, other: Self) -> bool {
            self.0 < other.0
        }
        fn reaches(self, other: Self) -> bool {
            self.0 >= other.0
        }
        fn is_positive(self) -> bool {
            self.0 > 0.0
        }
        fn is_negative(self) -> bool {
            self.0.is_sign_negative()
        }
        fn is_zero(self) -> bool {
            self.0 == 0.0
        }
        fn opposite(self) -> Self {
            Faint(-self.0)
        }
        fn absolute(self) -> Self {
            Faint(self.0.abs())
        }
        fn over(self, other: Self) -> Self {
            Faint(self.0 / other.0)
        }
        fn root(self) -> Self {
            Faint(self.0.sqrt())
        }
        fn power(self, n: u64) -> Self {
            Faint(self.0.powi(n as i32))
        }
        fn raised(self, exponent: Self) -> Self {
            Faint(self.0.powf(exponent.0))
        }
        fn exponential(self) -> Self {
            Faint(0.0)
        }
        fn logarithm(self) -> Self {
            Faint(self.0.ln())
        }
        fn tangent(self) -> Self {
            Faint(self.0.tanh())
        }
        fn sine(self) -> Self {
            Faint(self.0.sin())
        }
        fn cosine(self) -> Self {
            Faint(self.0.cos())
        }
    }
    let row = [Faint(1.0), Faint(2.0), Faint(3.0), Faint(4.0)];
    assert_eq!(softmax_row(&row), vec![Faint(0.25); 4]);
    assert!(exponential_shares(&row).iter().all(|share| share.0.is_nan()));
}

/// Checks the gradient of the sum of `f` over one list.
fn check_sum(
    data: &[f32],
    f: impl Fn(&[Real]) -> Vec<Real>,
    pull: impl Fn(&[Real], &[Real]) -> Vec<Real>,
) -> bool {
    let inputs = vec![reals(data)];
    let value = |x: &Vec<Vec<Real>>| arith::sum(&f(&x[0]));
    let grads = |x: &Vec<Vec<Real>>| {
        let ones = vec![Real(1.0); x[0].len()];
        vec![pull(&ones, &x[0])]
    };
    numerical_grad_check(&inputs, Real(1e-3), Real(1e-2), &value, &grads)
}

#[test]
fn test_grad_check_exp() {
    assert!(check_sum(&[0.5, 1.0], exp, |g, x| ExpOp.backward(g, &exp(x))));
}

#[test]
fn test_grad_check_log() {
    assert!(check_sum(&[1.0, 2.0], log, |g, x| LogOp.backward(g, x)));
}

#[test]
fn test_grad_check_relu() {
    let pull = |g: &[Real], x: &[Real]| relu(x).1.backward(g, Real(0.0));
    assert!(check_sum(&[-1.0, 0.5, 1.0, 2.0], |x| relu(x).0, pull));
}

#[test]
fn test_grad_check_gelu() {
    let op = GeluOp { numbers: gelu_numbers() };
    let pull = |g: &[Real], x: &[Real]| op.backward(g, x);
    assert!(check_sum(&[-1.0, 0.5, 1.0, 2.0], |x| gelu(x, &gelu_numbers()), pull));
}

#[test]
fn test_grad_check_softmax() {
    let pull = |g: &[Real], x: &[Real]| {
        let (s, op) = softmax(x, &[3]);
        op.backward(&s, g)
    };
    assert!(check_sum(&[1.0, 2.0, 3.0], |x| softmax(x, &[3]).0, pull));
}

#[test]
fn test_grad_check_log_softmax() {
    let pull = |g: &[Real], x: &[Real]| {
        let (found, op) = log_softmax(x, &[3]);
        op.backward(&found.shares, g)
    };
    assert!(check_sum(&[1.0, 2.0, 3.0], |x| log_softmax(x, &[3]).0.logs, pull));
}

#[test]
fn test_grad_check_cross_entropy() {
    let inputs = vec![reals(&[1.0, 2.0, 3.0, 4.0])];
    let value = |x: &Vec<Vec<Real>>| cross_entropy_loss(&x[0], &[2, 2], &[0, 1]).unwrap().loss;
    let grads = |x: &Vec<Vec<Real>>| {
        let all = cross_entropy_loss(&x[0], &[2, 2], &[0, 1]).unwrap();
        vec![all.op.backward(&all.shares, Real(1.0), Real(0.5))]
    };
    assert!(numerical_grad_check(&inputs, Real(1e-3), Real(1e-2), &value, &grads));
}

#[test]
fn test_grad_check_batch_matmul() {
    let inputs = vec![reals(&[1.0, 2.0, 3.0, 4.0]), reals(&[5.0, 6.0, 7.0, 8.0])];
    let value = |x: &Vec<Vec<Real>>| arith::sum(&batch_matmul(&x[0], &x[1], 1, 2, 2, 2));
    let grads = |x: &Vec<Vec<Real>>| {
        let op = BatchMatmulOp { batch: 1, m: 2, k: 2, n: 2 };
        let (a, b) = op.backward(&reals(&[1.0; 4]), &x[0], &x[1]);
        vec![a, b]
    };
    assert!(numerical_grad_check(&inputs, Real(1e-3), Real(1e-2), &value, &grads));
}

/// A gradient of some numbers.
#[derive(Debug, Clone, PartialEq)]
struct Pull(Vec<Real>);

impl Gradient for Pull {
    fn accumulate(&mut self, other: &Self) {
        self.0 = arith::add(&self.0, &other.0);
    }

    fn copy(&self) -> Self {
        self.clone()
    }
}

/// An operator with what it keeps of its inputs.
enum Kept {
    Sum,
    Difference,
    Product(Vec<Real>, Vec<Real>),
    Exponential(Vec<Real>),
    Logarithm(Vec<Real>),
}

impl Op<Pull> for Kept {
    fn backward(&self, grad_output: &Pull) -> Vec<Option<Pull>> {
        let g = &grad_output.0;
        match self {
            Kept::Sum => vec![Some(grad_output.clone()), Some(grad_output.clone())],
            Kept::Difference => {
                let negated = arith::scale(g, Real(-1.0));
                vec![Some(grad_output.clone()), Some(Pull(negated))]
            }
            Kept::Product(a, b) => {
                let (da, db) = MulOp.backward(g, a, b);
                vec![Some(Pull(da)), Some(Pull(db))]
            }
            Kept::Exponential(out) => vec![Some(Pull(ExpOp.backward(g, out)))],
            Kept::Logarithm(input) => vec![Some(Pull(LogOp.backward(g, input)))],
        }
    }
}

#[test]
fn test_sub_backward() {
    let mode = GradMode::default();
    let mut graph: Graph<Kept> = Graph::new();
    let x = graph.leaf(true);
    let y = graph.leaf(true);
    let z = graph.apply(&mode, Kept::Difference, vec![x, y]);
    let grads = graph.backward_with_grad(z, Pull(reals(&[1.0])));
    assert_eq!(grads[x], Some(Pull(reals(&[1.0]))));
    assert_eq!(grads[y], Some(Pull(reals(&[-1.0]))));
}

#[test]
fn test_composite_mul_add() {
    let mode = GradMode::default();
    let mut graph: Graph<Kept> = Graph::new();
    let x = graph.leaf(true);
    let y = graph.leaf(true);
    let product = graph.apply(&mode, Kept::Product(reals(&[3.0]), reals(&[4.0])), vec![x, y]);
    let z = graph.apply(&mode, Kept::Sum, vec![product, x]);
    let grads = graph.backward_with_grad(z, Pull(reals(&[1.0])));
    assert_eq!(grads[x], Some(Pull(reals(&[5.0]))));
    assert_eq!(grads[y], Some(Pull(reals(&[3.0]))));
}

#[test]
fn test_composite_exp_log() {
    let mode = GradMode::default();
    let mut graph: Graph<Kept> = Graph::new();
    let x = graph.leaf(true);
    let value = exp(&reals(&[2.0]));
    let power = graph.apply(&mode, Kept::Exponential(value.clone()), vec![x]);
    let z = graph.apply(&mode, Kept::Logarithm(value), vec![power]);
    let grads = graph.backward_with_grad(z, Pull(reals(&[1.0])));
    let g = grads[x].as_ref().unwrap().0[0].0;
    assert!((g - 1.0).abs() < 1e-5);
}

#[test]
fn test_cosine_scheduler_warmup() {
    let sched = CosineScheduler::new(Real(0.001), 100, 1000);
    assert!((sched.get_lr(0).0 - 0.0).abs() < 1e-8);
    assert!((sched.get_lr(50).0 - 0.0005).abs() < 1e-6);
    assert!((sched.get_lr(100).0 - 0.001).abs() < 1e-6);
}

#[test]
fn test_cosine_scheduler_decay() {
    let sched = CosineScheduler::new(Real(0.001), 0, 1000);
    let lr_start = sched.get_lr(0).0;
    let lr_mid = sched.get_lr(500).0;
    let lr_end = sched.get_lr(1000).0;
    assert!((lr_start - 0.001).abs() < 1e-6);
    assert!(lr_mid < lr_start && lr_mid > lr_end);
    assert!((lr_end - 0.0001).abs() < 1e-6);
}

#[test]
fn test_monitor_improving_loss() {
    let mut mon = TrainingMonitor::new(3, Real(0.2));
    assert_eq!(mon.record_loss(Real(3.0)), MonitorAction::Continue);
    assert_eq!(mon.record_loss(Real(2.5)), MonitorAction::Continue);
    assert_eq!(mon.record_loss(Real(2.0)), MonitorAction::Continue);
    assert_eq!(mon.record_loss(Real(1.5)), MonitorAction::Continue);
    assert!(mon.best_avg_loss().0 < 2.5);
}

#[test]
fn test_monitor_triggers_rollback() {
    let mut mon = TrainingMonitor::new(3, Real(0.1));
    mon.record_loss(Real(1.0));
    mon.record_loss(Real(1.0));
    mon.record_loss(Real(1.0));

    mon.record_loss(Real(1.5));
    mon.record_loss(Real(1.5));
    let action = mon.record_loss(Real(1.5));

    match action {
        MonitorAction::Rollback { current_avg, best_avg } => {
            assert!((current_avg.0 - 1.5).abs() < 1e-6);
            assert!((best_avg.0 - 1.0).abs() < 1e-6);
        }
        _ => panic!("expected rollback"),
    }
    assert!(mon.rollback_count() >= 1);
}

#[test]
fn test_monitor_no_rollback_within_threshold() {
    let mut mon = TrainingMonitor::new(3, Real(0.5));
    mon.record_loss(Real(1.0));
    mon.record_loss(Real(1.0));
    mon.record_loss(Real(1.0));

    mon.record_loss(Real(1.2));
    mon.record_loss(Real(1.2));
    let action = mon.record_loss(Real(1.2));
    assert_eq!(action, MonitorAction::Continue);
}

#[test]
fn test_monitor_reset_after_rollback() {
    let mut mon = TrainingMonitor::new(2, Real(0.1));
    mon.record_loss(Real(1.0));
    mon.record_loss(Real(1.0));
    mon.record_loss(Real(5.0));
    mon.record_loss(Real(5.0));

    mon.reset_after_rollback();
    assert_eq!(mon.rolling_avg(), Real(f32::MAX));
    assert!((mon.best_avg_loss().0 - 1.0).abs() < 1e-6);
}

#[test]
fn test_monitor_sample_count() {
    let mut mon = TrainingMonitor::new(3, Real(0.2));
    mon.record_loss(Real(1.0));
    mon.record_loss(Real(2.0));
    mon.record_loss(Real(3.0));
    assert_eq!(mon.total_samples(), 3);
}

#[test]
fn the_window_holds_the_latest_losses() {
    let mut mon = TrainingMonitor::new(2, Real(0.1));
    for loss in [4.0, 3.0, 2.0] {
        mon.record_loss(Real(loss));
    }
    assert_eq!(mon.rolling_avg(), Real(2.5));
}

#[test]
fn rings_of_two_exchange_halves() {
    let mut grads = vec![
        vec![Real(1.0), Real(2.0), Real(3.0)],
        vec![Real(0.5), Real(0.25), Real(4.0)],
    ];
    ring_allreduce(&mut grads);
    assert_eq!(grads[0], vec![Real(1.5), Real(2.25), Real(7.0)]);
    assert_eq!(grads[1], grads[0]);
}

#[test]
fn gradients_are_averaged_once_all_have_come() {
    let mut state = CoordinatorState::<Real>::new(2);
    state.submit_gradient(0, 2, &[Real(1.0), Real(2.0)]);
    assert!(state.averaged_gradient(0, 2).is_none());
    state.submit_gradient(0, 2, &[Real(3.0), Real(5.0)]);
    assert_eq!(
        state.averaged_gradient(0, 2),
        Some(vec![Real(2.0), Real(3.5)])
    );
    assert!(state.averaged_gradient(1, 1).is_none());
}

#[test]
fn rounds_take_the_time_of_their_bytes_and_hops() {
    let estimate = AllReduceEstimate {
        nodes: Vec::new(),
        payload_bytes: 3 * 1024 * 1024,
        ring_hops: 3,
        min_bandwidth_mb_s: 2,
        latency_us: 500_000,
    };
    assert_eq!(estimate.estimated_seconds::<Real>(), Real(3.0));
    let slowest = AllReduceEstimate { min_bandwidth_mb_s: 0, ..estimate };
    assert_eq!(slowest.estimated_seconds::<Real>(), Real(4.5));
}

#[test]
fn tank9k_ring_topology_validates_and_plans() {
    let a = DeviceId::tank9k(0);
    let b = DeviceId::tank9k(1);
    let c = DeviceId::tank9k(2);

    let mut topo = HardwareTopology::new("tank9k-ring");
    topo.add_node(HardwareNode::new(a.clone(), "board-a", "tank9k", 4096));
    topo.add_node(HardwareNode::new(b.clone(), "board-b", "tank9k", 4096));
    topo.add_node(HardwareNode::new(c.clone(), "board-c", "tank9k", 4096));
    topo.add_link(HardwareLink::new(
        a.clone(),
        b.clone(),
        TransportKind::Serial,
        LinkRole::Data,
        40,
        120,
    ));
    topo.add_link(HardwareLink::new(
        b.clone(),
        c.clone(),
        TransportKind::Serial,
        LinkRole::Data,
        40,
        120,
    ));
    topo.add_link(HardwareLink::new(
        c.clone(),
        a.clone(),
        TransportKind::Serial,
        LinkRole::Data,
        40,
        120,
    ));

    let validation = topo.validate_connectivity();
    assert!(validation.connected);
    assert_eq!(validation.connected_nodes, 3);
    assert_eq!(topo.online_node_count(), 3);

    let ring = topo.ring_plan();
    assert_eq!(ring.len(), 3);
    assert_eq!(ring[0].backend, "tank9k");

    let estimate = topo.allreduce_cost_estimate(12 * 1024 * 1024).expect("estimate");
    assert_eq!(estimate.ring_hops, 3);
    assert!(estimate.estimated_seconds::<Real>().0 > 0.0);

    let partition = topo.matmul_partition_plan(32, 32, 32);
    assert_eq!(partition.shards.len(), 3);
    assert_eq!(partition.shards[0].device, a);
    assert_eq!(partition.shards[1].device, b);
    assert_eq!(partition.shards[2].device, c);
}

#[test]
fn test_backend_dispatch_custom() {
    struct DoubleBackend;
    impl DoubleBackend {
        fn add_f32(&self, a: &[Real], b: &[Real]) -> Vec<Real> {
            a.iter().zip(b).map(|(x, y)| Real((x.0 + y.0) * 2.0)).collect()
        }
        fn mul_f32(&self, a: &[Real], b: &[Real]) -> Vec<Real> {
            a.iter().zip(b).map(|(x, y)| Real(x.0 * y.0 * 2.0)).collect()
        }
        fn neg_f32(&self, a: &[Real]) -> Vec<Real> {
            a.iter().map(|x| Real(-x.0 * 2.0)).collect()
        }
    }
    let dev = Device::Custom(99);
    let mut registry = BackendRegistry::new();
    registry.register_backend(dev, DoubleBackend);

    let a = reals(&[1.0, 2.0]);
    let b = reals(&[3.0, 4.0]);
    let add = |x: &[Real], y: &[Real]| arith::add(x, y);
    let add_there = |k: &DoubleBackend, x: &[Real], y: &[Real]| k.add_f32(x, y);
    let c = registry.dispatch_binary(&a, &b, &dev, &add, &add_there);
    assert_eq!(floats(&c), vec![8.0, 12.0]);
    let here = registry.dispatch_binary(&a, &b, &Device::CPU, &add, &add_there);
    assert_eq!(floats(&here), vec![4.0, 6.0]);

    let mul = |x: &[Real], y: &[Real]| arith::mul(x, y);
    let mul_there = |k: &DoubleBackend, x: &[Real], y: &[Real]| k.mul_f32(x, y);
    let d = registry.dispatch_binary(&a, &b, &dev, &mul, &mul_there);
    assert_eq!(floats(&d), vec![6.0, 16.0]);

    let neg = |x: &[Real]| arith::scale(x, Real(-1.0));
    let neg_there = |k: &DoubleBackend, x: &[Real]| k.neg_f32(x);
    let e = registry.dispatch_unary(&a, &dev, &neg, &neg_there);
    assert_eq!(floats(&e), vec![-2.0, -4.0]);
}

#[test]
fn later_backends_take_the_place_of_earlier_ones() {
    let mut registry = BackendRegistry::new();
    assert_eq!(registry.get_backend(&Device::CPU), None);
    registry.register_backend(Device::CPU, 1);
    registry.register_backend(Device::Cuda(0), 2);
    registry.register_backend(Device::CPU, 3);
    assert_eq!(registry.get_backend(&Device::CPU), Some(&3));
    assert_eq!(registry.get_backend(&Device::Cuda(0)), Some(&2));
    assert_eq!(registry.get_backend(&Device::Cuda(1)), None);
}

#[test]
fn readings_follow_samples_and_steps() {
    let mut turns = EvolutionLoop::new();
    for sample in 1..=9u64 {
        turns.next_turn();
        let readings = turns.readings::<Real>();
        let id = sample as f32;
        assert_eq!(readings.grad_scale_factor, Real(1.0 + ((sample % 7) as f32) * 0.05));
        assert_eq!(readings.grad_norm, Real(0.2 + (id * 0.17).sin().abs()));
        let base = 1.8 / ((turns.total_steps() + 1) as f32);
        assert_eq!(readings.loss, Real(base + (id * 0.13).cos().abs() * 0.08));
        if sample % 4 == 0 {
            turns.trained(false);
        }
    }
    assert_eq!(turns.total_steps(), 2);
}

#[test]
fn shorter_gradients_add_nothing_where_they_end() {
    let grads = vec![reals(&[2.0, 4.0]), reals(&[6.0]), reals(&[1.0, 2.0, 9.0])];
    assert_eq!(average_gradients(&grads), reals(&[3.0, 2.0]));
}
