//! Layers, models and training, over tensors that remember how they were made.

use rand::Rng;
use sptorch::autograd::graph::{Gradient, Graph, Op};
use sptorch::data::bpe::BpeTokenizer;
use sptorch::data::tokenizer::Tokenizer;
use sptorch::nn::attention::MultiHeadAttention;
use sptorch::nn::blocks::{QwenLikeBlock, TransformerBlock};
use sptorch::nn::decoder::{
    activate_inference_batch, activate_qwen_like_inference_batch, decode_constrained_next_token,
    decode_inference_batch_round, decode_next_token, decode_qwen_like_inference_batch_round,
    decode_qwen_like_next_token, generate_constrained, generate_greedy,
    generate_qwen_like_with_config, generate_with_config, generate_with_sampling,
    AutoregressiveForward, PrefillCache,
};
use sptorch::nn::heads;
use sptorch::nn::initial::{kaiming_weights, xavier_limit};
use sptorch::nn::kv_cache::{KvCache, KvCacheSpec, KvTensor};
use sptorch::nn::layers::{
    dropout_mask, Dropout, Embedding, LayerNorm, Linear, LoRALinear, Module, RmsNorm,
};
use sptorch::nn::lora::LoraShape;
use sptorch::nn::models::{QwenLikeGPT, GPT};
use sptorch::nn::norm::RowNorm;
use sptorch::nn::operand::Operand;
use sptorch::nn::params::named_parameter;
use sptorch::nn::rope::RopeShape;
use sptorch::nn::scheduler::{InferenceBatch, InferenceRequest};
use sptorch::nn::session::InferenceBatchState;
use sptorch::nn::state::{DecodeStopReason, GenerationConfig, InferenceState};
use sptorch::nn::trie::TokenTrie;
use sptorch::optim::sgd::SGD;
use sptorch::tensor::arith;
use sptorch::tensor::arith::{MulOp, Scalar, ScaleOp};
use sptorch::tensor::gated;
use sptorch::tensor::grad_mode::GradMode;
use sptorch::tensor::linalg;
use sptorch::tensor::linalg::{BatchMatmulOp, MatmulOp};
use sptorch::tensor::number;
use sptorch::tensor::number::{GeluOp, Number};
use sptorch::tensor::ops;
use sptorch::tensor::ops::{BroadcastAddOp, MaskedFillOp};
use sptorch::tensor::partial_loss;
use sptorch::tensor::rows;
use sptorch::tensor::softmax;
use std::cell::RefCell;
use std::collections::HashMap;
use std::rc::Rc;

/// A single precision number.
#[derive(Debug, Clone, Copy, PartialEq)]
struct Real(f32);

impl Scalar for Real {
    fn zero() -> Self {
        Real(0.0)
    }

    fn plus(self, other: Self) -> Self {
        Real(self.0 + other.0)
    }

    fn minus(self, other: Self) -> Self {
        Real(self.0 - other.0)
    }

    fn times(self, other: Self) -> Self {
        Real(self.0 * other.0)
    }

    fn is_sound(self) -> bool {
        self.0.is_finite()
    }
}

impl Number for Real {
    fn one() -> Self {
        Real(1.0)
    }

    fn count(n: u64) -> Self {
        Real(n as f32)
    }

    fn decimal(digits: u64, places: u32) -> Self {
        Real(format!("{digits}e-{places}").parse().unwrap())
    }

    fn from_bits(bits: u32) -> Self {
        Real(f32::from_bits(bits))
    }

    fn to_bits(self) -> u32 {
        self.0.to_bits()
    }

    fn pi() -> Self {
        Real(std::f32::consts::PI)
    }

    fn lowest() -> Self {
        Real(f32::NEG_INFINITY)
    }

    fn highest() -> Self {
        Real(f32::MAX)
    }

    fn greater(self, other: Self) -> Self {
        Real(self.0.max(other.0))
    }

    fn is_below(self, other: Self) -> bool {
        self.0 < other.0
    }

    fn reaches(self, other: Self) -> bool {
        self.0 >= other.0
    }

    fn is_positive(self) -> bool {
        self.0 > 0.0
    }

    fn is_negative(self) -> bool {
        self.0.is_sign_negative()
    }

    fn is_zero(self) -> bool {
        self.0 == 0.0
    }

    fn opposite(self) -> Self {
        Real(-self.0)
    }

    fn absolute(self) -> Self {
        Real(self.0.abs())
    }

    fn over(self, other: Self) -> Self {
        Real(self.0 / other.0)
    }

    fn root(self) -> Self {
        Real(self.0.sqrt())
    }

    fn power(self, n: u64) -> Self {
        Real(self.0.powi(n as i32))
    }

    fn raised(self, exponent: Self) -> Self {
        Real(self.0.powf(exponent.0))
    }

    fn exponential(self) -> Self {
        Real(self.0.exp())
    }

    fn logarithm(self) -> Self {
        Real(self.0.ln())
    }

    fn tangent(self) -> Self {
        Real(self.0.tanh())
    }

    fn sine(self) -> Self {
        Real(self.0.sin())
    }

    fn cosine(self) -> Self {
        Real(self.0.cos())
    }
}

fn reals(values: &[f32]) -> Vec<Real> {
    values.iter().map(|v| Real(*v)).collect()
}

fn floats(values: &[Real]) -> Vec<f32> {
    values.iter().map(|v| v.0).collect()
}

/// What becomes of the gradient of a result.
type Pull = Rc<dyn Fn(&[Real]) -> Vec<Vec<Real>>>;

struct Inner {
    data: Vec<Real>,
    shape: Vec<usize>,
    requires_grad: bool,
    grad: Option<Vec<Real>>,
    creator: Option<(Pull, Vec<Tensor>)>,
}

/// A tensor. Clones share it.
#[derive(Clone)]
struct Tensor(Rc<RefCell<Inner>>);

/// A gradient on its way back.
#[derive(Clone)]
struct Grad(Vec<Real>);

impl Gradient for Grad {
    fn accumulate(&mut self, other: &Self) {
        self.0 = arith::add(&self.0, &other.0);
    }

    fn copy(&self) -> Self {
        self.clone()
    }
}

struct Made(Pull);

impl Op<Grad> for Made {
    fn backward(&self, grad_output: &Grad) -> Vec<Option<Grad>> {
        (self.0)(&grad_output.0).into_iter().map(|g| Some(Grad(g))).collect()
    }
}

impl Tensor {
    fn of(data: Vec<Real>, shape: Vec<usize>) -> Self {
        assert_eq!(data.len(), shape.iter().product::<usize>());
        Tensor(Rc::new(RefCell::new(Inner {
            data,
            shape,
            requires_grad: false,
            grad: None,
            creator: None,
        })))
    }

    fn new(data: Vec<f32>, shape: Vec<usize>) -> Self {
        Self::of(reals(&data), shape)
    }

    fn with_grad(data: Vec<f32>, shape: Vec<usize>, requires_grad: bool) -> Self {
        let t = Self::new(data, shape);
        t.0.borrow_mut().requires_grad = requires_grad;
        t
    }

    fn made(
        data: Vec<Real>,
        shape: Vec<usize>,
        inputs: &[&Tensor],
        pull: impl Fn(&[Real]) -> Vec<Vec<Real>> + 'static,
    ) -> Self {
        let t = Self::of(data, shape);
        if inputs.iter().any(|input| input.requires_grad()) {
            let mut inner = t.0.borrow_mut();
            inner.requires_grad = true;
            let inputs = inputs.iter().map(|input| (*input).clone()).collect();
            inner.creator = Some((Rc::new(pull), inputs));
        }
        t
    }

    fn values(&self) -> Vec<Real> {
        self.0.borrow().data.clone()
    }

    fn data(&self) -> Vec<f32> {
        floats(&self.0.borrow().data)
    }

    fn set_data(&self, data: &[f32]) {
        assert_eq!(data.len(), self.numel());
        self.0.borrow_mut().data = reals(data);
    }

    fn shape(&self) -> Vec<usize> {
        self.0.borrow().shape.clone()
    }

    fn numel(&self) -> usize {
        self.0.borrow().data.len()
    }

    fn is_scalar(&self) -> bool {
        self.numel() == 1
    }

    fn requires_grad(&self) -> bool {
        self.0.borrow().requires_grad
    }

    fn set_requires_grad(&self, enabled: bool) {
        self.0.borrow_mut().requires_grad = enabled;
    }

    fn grad(&self) -> Option<Vec<f32>> {
        self.0.borrow().grad.as_ref().map(|g| floats(g))
    }

    fn key(&self) -> usize {
        Rc::as_ptr(&self.0) as usize
    }

    fn collect(&self, order: &mut Vec<Tensor>, ids: &mut HashMap<usize, usize>) {
        if ids.contains_key(&self.key()) {
            return;
        }
        if let Some((_, inputs)) = &self.0.borrow().creator {
            for input in inputs {
                input.collect(order, ids);
            }
        }
        ids.insert(self.key(), order.len());
        order.push(self.clone());
    }

    fn backward(&self) {
        assert!(self.is_scalar(), "backward() requires a scalar tensor");
        self.backward_with_grad(&Tensor::new(vec![1.0], self.shape()));
    }

    fn backward_with_grad(&self, seed: &Tensor) {
        assert_eq!(seed.shape(), self.shape());
        let mut order = Vec::new();
        let mut ids = HashMap::new();
        self.collect(&mut order, &mut ids);
        let mode = GradMode::default();
        let mut graph: Graph<Made> = Graph::new();
        for tensor in &order {
            match &tensor.0.borrow().creator {
                None => {
                    graph.leaf(tensor.requires_grad());
                }
                Some((pull, inputs)) => {
                    let inputs = inputs.iter().map(|input| ids[&input.key()]).collect();
                    graph.apply(&mode, Made(pull.clone()), inputs);
                }
            }
        }
        let grads = graph.backward_with_grad(ids[&self.key()], Grad(seed.values()));
        for (tensor, grad) in order.iter().zip(grads) {
            let mut inner = tensor.0.borrow_mut();
            if let (Some(grad), true) = (grad, inner.requires_grad) {
                let sum = match &inner.grad {
                    Some(held) => arith::add(held, &grad.0),
                    None => grad.0,
                };
                inner.grad = Some(sum);
            }
        }
    }
}

fn weights(data: Vec<f32>, shape: Vec<usize>) -> Tensor {
    Tensor::with_grad(data, shape, true)
}

/// Normalises rows of `dim` elements, stretches and shifts them.
fn normed(x: &Tensor, dim: usize, gain: &Tensor, shift: Option<&Tensor>, eps: Real) -> Tensor {
    let op = RowNorm { dim, centred: shift.is_some() };
    let shifts = shift.map_or(vec![Real(0.0); dim], |s| s.values());
    let (out, normalized) = op.layer_norm(&x.values(), &gain.values(), &shifts, eps);
    let mut inputs = vec![x, gain];
    inputs.extend(shift);
    let (kept, centred) = (gain.values(), op.centred);
    Tensor::made(out, x.shape(), &inputs, move |g| {
        let grads = op.backward(g, &normalized, &kept);
        let mut list = vec![grads.input, grads.gain];
        if centred {
            list.push(grads.shift);
        }
        list
    })
}

impl Operand for Tensor {
    type Num = Real;

    fn xavier_uniform(rows: usize, cols: usize) -> Self {
        let limit = xavier_limit::<Real>(rows, cols).0;
        let mut rng = rand::thread_rng();
        let data = (0..rows * cols).map(|_| rng.gen_range(-limit..limit)).collect();
        weights(data, vec![rows, cols])
    }

    fn kaiming_normal(rows: usize, cols: usize) -> Self {
        let mut rng = rand::thread_rng();
        let draws: Vec<(Real, Real)> = (0..rows * cols)
            .map(|_| {
                let chance = rng.gen_range(1e-7f32..1.0);
                (Real(chance), Real(rng.gen_range(0.0..std::f32::consts::TAU)))
            })
            .collect();
        weights(floats(&kaiming_weights(rows, &draws)), vec![rows, cols])
    }

    fn uniform(rows: usize, cols: usize) -> Self {
        let mut rng = rand::thread_rng();
        let data = (0..rows * cols).map(|_| rng.gen_range(-1.0..1.0)).collect();
        weights(data, vec![rows, cols])
    }

    fn filled_matrix(rows: usize, cols: usize, value: Real) -> Self {
        weights(vec![value.0; rows * cols], vec![rows, cols])
    }

    fn filled(n: usize, value: Real) -> Self {
        weights(vec![value.0; n], vec![n])
    }

    fn with_elements(&self, elements: Vec<Real>) -> Self {
        Tensor::of(elements, self.shape())
    }

    fn handle(&self) -> Self {
        self.clone()
    }

    fn detach(&self) -> Self {
        Tensor::of(self.values(), self.shape())
    }

    fn frozen(self) -> Self {
        self.set_requires_grad(false);
        self
    }

    fn rows(&self) -> usize {
        self.shape()[0]
    }

    fn cols(&self) -> usize {
        self.shape()[1]
    }

    fn elements(&self) -> Vec<Real> {
        self.values()
    }

    fn chances(&self) -> Vec<Real> {
        let mut rng = rand::thread_rng();
        (0..self.numel()).map(|_| Real(rng.gen())).collect()
    }

    fn cached(&self) -> KvTensor<Real> {
        KvTensor { shape: self.shape(), data: self.values() }
    }

    fn transpose(&self) -> Self {
        let (m, n) = (self.rows(), self.cols());
        let out = ops::transpose(&self.values(), m, n);
        Tensor::made(out, vec![n, m], &[self], move |g| vec![ops::transpose(g, n, m)])
    }

    fn matmul(&self, other: &Self) -> Self {
        let (m, k, n) = (self.rows(), self.cols(), other.cols());
        let (a, b) = (self.values(), other.values());
        let out = linalg::matmul(&a, &b, m, k, n);
        Tensor::made(out, vec![m, n], &[self, other], move |g| {
            let (da, db) = MatmulOp { m, k, n }.backward(g, &a, &b);
            vec![da, db]
        })
    }

    fn batch_matmul(&self, other: &Self) -> Self {
        let (batch, m, k) = (self.shape()[0], self.shape()[1], self.shape()[2]);
        let n = other.shape()[2];
        let (a, b) = (self.values(), other.values());
        let out = linalg::batch_matmul(&a, &b, batch, m, k, n);
        Tensor::made(out, vec![batch, m, n], &[self, other], move |g| {
            let (da, db) = BatchMatmulOp { batch, m, k, n }.backward(g, &a, &b);
            vec![da, db]
        })
    }

    fn batch_transpose(&self, batch: usize, rows: usize, cols: usize) -> Self {
        let out = heads::batch_transpose(&self.values(), batch, rows, cols);
        let op = heads::BatchTransposeOp { batch, rows, cols };
        Tensor::made(out, vec![batch, cols, rows], &[self], move |g| vec![op.backward(g)])
    }

    fn added(&self, other: &Self) -> Self {
        let out = arith::add(&self.values(), &other.values());
        Tensor::made(out, self.shape(), &[self, other], |g| {
            let (a, b) = ops::AddOp.backward(g);
            vec![a, b]
        })
    }

    fn multiplied(&self, other: &Self) -> Self {
        let (a, b) = (self.values(), other.values());
        let out = arith::mul(&a, &b);
        Tensor::made(out, self.shape(), &[self, other], move |g| {
            let (da, db) = MulOp.backward(g, &a, &b);
            vec![da, db]
        })
    }

    fn broadcast_add(&self, list: &Self) -> Self {
        let out = ops::broadcast_add(&self.values(), &list.values()).unwrap();
        let op = BroadcastAddOp { b_shape: list.shape() };
        Tensor::made(out, self.shape(), &[self, list], move |g| {
            let (a, b) = op.backward(g);
            vec![a, b]
        })
    }

    fn scale(&self, factor: Real) -> Self {
        let out = arith::scale(&self.values(), factor);
        let op = ScaleOp { scalar: factor };
        Tensor::made(out, self.shape(), &[self], move |g| vec![op.backward(g)])
    }

    fn gelu(&self) -> Self {
        let data = self.values();
        let op = GeluOp { numbers: number::gelu_numbers() };
        let out = number::gelu(&data, &op.numbers);
        Tensor::made(out, self.shape(), &[self], move |g| vec![op.backward(g, &data)])
    }

    fn swiglu(&self, gate: &Self) -> Self {
        let (out, op) = gated::swiglu(&self.values(), &gate.values());
        Tensor::made(out, self.shape(), &[self, gate], move |g| {
            let (up, gate) = op.backward(g);
            vec![up, gate]
        })
    }

    fn softmax(&self) -> Self {
        let (out, op) = softmax::softmax(&self.values(), &self.shape());
        let shares = out.clone();
        Tensor::made(out, self.shape(), &[self], move |g| vec![op.backward(&shares, g)])
    }

    fn reshape(&self, shape: Vec<usize>) -> Self {
        let op = ops::reshape(&self.shape(), &shape).unwrap();
        Tensor::made(self.values(), shape, &[self], move |g| vec![op.backward(g).0])
    }

    fn masked_fill(&self, mask: &[bool], fill: Real) -> Self {
        let out = ops::masked_fill(&self.values(), mask, fill);
        let op = MaskedFillOp { mask: mask.to_vec() };
        Tensor::made(out, self.shape(), &[self], move |g| vec![op.backward(g, Real(0.0))])
    }

    fn embedding_lookup(&self, indices: &[usize]) -> Self {
        let (n, dim) = (self.rows(), self.cols());
        let (out, op) = ops::embedding_lookup(&self.values(), n, dim, indices).unwrap();
        Tensor::made(out, vec![indices.len(), dim], &[self], move |g| vec![op.backward(g)])
    }

    fn layer_norm(&self, dim: usize, gamma: &Self, beta: &Self, eps: Real) -> Self {
        normed(self, dim, gamma, Some(beta), eps)
    }

    fn rms_norm(&self, weight: &Self, eps: Real) -> Self {
        normed(self, weight.numel(), weight, None, eps)
    }

    fn reshape_to_heads(&self, seq_len: usize, n_head: usize, head_dim: usize) -> Self {
        let out = heads::reshape_to_heads(&self.values(), seq_len, n_head, head_dim);
        let op = heads::ReshapeToHeadsOp { seq_len, n_head, head_dim };
        Tensor::made(out, vec![n_head, seq_len, head_dim], &[self], move |g| vec![op.backward(g)])
    }

    fn reshape_from_heads(&self, seq_len: usize, n_head: usize, head_dim: usize) -> Self {
        let out = heads::reshape_from_heads(&self.values(), seq_len, n_head, head_dim);
        let op = heads::ReshapeFromHeadsOp { seq_len, n_head, head_dim };
        Tensor::made(out, vec![seq_len, n_head * head_dim], &[self], move |g| vec![op.backward(g)])
    }

    fn rotary_position_embedding(&self, base: Real) -> Self {
        let dims = self.shape();
        let shape = RopeShape { n_head: dims[0], seq_len: dims[1], head_dim: dims[2] };
        let out = shape.turn(&self.values(), &shape.angles(base, false));
        Tensor::made(out, dims, &[self], move |g| {
            vec![shape.turn(g, &shape.angles(base, true))]
        })
    }
}

fn sum(x: &Tensor) -> Tensor {
    let n = x.numel();
    let out = vec![arith::sum(&x.values())];
    Tensor::made(out, vec![1], &[x], move |g| vec![vec![g[0]; n]])
}

fn relu(x: &Tensor) -> Tensor {
    let (out, op) = number::relu(&x.values());
    Tensor::made(out, x.shape(), &[x], move |g| vec![op.backward(g, Real(0.0))])
}

fn cross_entropy_loss(scores: &Tensor, targets: &[usize]) -> Tensor {
    let all = softmax::cross_entropy_loss(&scores.values(), &scores.shape(), targets).unwrap();
    let n = all.op.targets.len() as f32;
    Tensor::made(vec![all.loss], vec![1], &[scores], move |g| {
        vec![all.op.backward(&all.shares, Real(1.0), Real(g[0].0 / n))]
    })
}

fn cross_entropy_loss_ignore_index(scores: &Tensor, targets: &[usize], ignored: usize) -> Tensor {
    let (samples, classes) = (scores.rows(), scores.cols());
    let all = partial_loss::cross_entropy_loss_ignore_index(
        &scores.values(),
        samples,
        classes,
        targets,
        ignored,
    )
    .unwrap();
    let n = all.counted.indices.len() as f32;
    Tensor::made(vec![all.inner.loss], vec![1], &[scores], move |g| {
        let grads = all.inner.op.backward(&all.inner.shares, Real(1.0), Real(g[0].0 / n));
        vec![all.counted.backward(&grads)]
    })
}

/// Descends along the gradients that have come in.
struct Descent {
    params: Vec<Tensor>,
    inner: SGD<Real>,
}

impl Descent {
    fn new(params: Vec<Tensor>, lr: f32) -> Self {
        Descent { inner: SGD::new(params.len(), Real(lr), Real(0.0)), params }
    }

    fn step(&mut self) {
        let mut data: Vec<Vec<Real>> = self.params.iter().map(|p| p.values()).collect();
        let grads = self.params.iter().map(|p| p.0.borrow().grad.clone()).collect();
        self.inner.step(&mut data, &grads);
        for (param, data) in self.params.iter().zip(data) {
            param.0.borrow_mut().data = data;
        }
    }

    fn zero_grad(&self) {
        zero_grad(&self.params);
    }
}

fn zero_grad(params: &[Tensor]) {
    for param in params {
        param.0.borrow_mut().grad = None;
    }
}

/// Folds an adapter into its base.
fn merge(lora: &LoRALinear<Tensor>) {
    let merged = lora.merged().unwrap();
    lora.base.weight.set_data(&floats(&merged));
}

#[test]
fn test_linear_forward_shape() {
    let linear: Linear<Tensor> = Linear::new(4, 3, true);
    let input = Tensor::new(vec![1.0; 8], vec![2, 4]);
    let out = linear.forward(&input);
    assert_eq!(out.shape(), vec![2, 3]);
}

#[test]
fn test_linear_no_bias() {
    let linear: Linear<Tensor> = Linear::new(3, 2, false);
    assert!(linear.bias.is_none());
    assert_eq!(linear.parameters().len(), 1);
}

#[test]
fn test_linear_with_bias() {
    let linear: Linear<Tensor> = Linear::new(3, 2, true);
    assert!(linear.bias.is_some());
    assert_eq!(linear.parameters().len(), 2);
}

#[test]
fn linear_layers_multiply_and_add() {
    let linear: Linear<Tensor> = Linear::new(2, 2, true);
    linear.weight.set_data(&[1.0, 2.0, 3.0, 4.0]);
    linear.bias.as_ref().unwrap().set_data(&[10.0, 20.0]);
    let out = linear.forward(&Tensor::new(vec![1.0, 1.0, 0.0, 2.0], vec![2, 2]));
    assert_eq!(out.data(), vec![13.0, 27.0, 14.0, 28.0]);
}

#[test]
fn test_layer_norm_forward_1d() {
    let ln: LayerNorm<Tensor> = LayerNorm::new(3);
    let input = Tensor::new(vec![1.0, 2.0, 3.0], vec![3]);
    let out = ln.forward(&input);
    let d = out.data();
    let mean: f32 = d.iter().sum::<f32>() / 3.0;
    assert!(mean.abs() < 1e-5);
}

#[test]
fn test_layer_norm_forward_2d() {
    let ln: LayerNorm<Tensor> = LayerNorm::new(4);
    let input = Tensor::new(vec![1.0, 2.0, 3.0, 4.0, 5.0, 6.0, 7.0, 8.0], vec![2, 4]);
    let out = ln.forward(&input);
    assert_eq!(out.shape(), vec![2, 4]);
    let d = out.data();
    let mean0: f32 = d[0..4].iter().sum::<f32>() / 4.0;
    let mean1: f32 = d[4..8].iter().sum::<f32>() / 4.0;
    assert!(mean0.abs() < 1e-5);
    assert!(mean1.abs() < 1e-5);
}

#[test]
fn test_layer_norm_tracks_beta_even_if_gamma_frozen() {
    let ln: LayerNorm<Tensor> = LayerNorm::new(4);
    ln.gamma.set_requires_grad(false);
    let input = Tensor::new(vec![1.0, 2.0, 3.0, 4.0], vec![4]);

    let out = ln.forward(&input);
    assert!(out.requires_grad());

    let loss = sum(&out);
    loss.backward();

    assert!(ln.gamma.grad().is_none());
    assert!(ln.beta.grad().is_some());
    assert_eq!(ln.beta.grad().unwrap().len(), 4);
}

#[test]
fn norms_begin_with_their_small_numbers() {
    let ln: LayerNorm<Tensor> = LayerNorm::new(2);
    assert_eq!((ln.eps, ln.normalized_shape), (Real(1e-5), 2));
    assert_eq!((ln.gamma.data(), ln.beta.data()), (vec![1.0; 2], vec![0.0; 2]));
    let rms: RmsNorm<Tensor> = RmsNorm::new(2);
    assert_eq!((rms.eps, rms.normalized_shape), (Real(1e-6), 2));
    let out = rms.forward(&Tensor::new(vec![3.0, 4.0], vec![1, 2])).data();
    assert!((out[0] - 3.0 / 12.5f32.sqrt()).abs() < 1e-5);
    assert_eq!(rms.named_parameters("norm")[0].name, "norm.weight");
}

#[test]
fn test_xavier_uniform_range() {
    let t = Tensor::xavier_uniform(100, 100);
    let d = t.data();
    let limit = (6.0 / 200.0f32).sqrt();
    for v in &d {
        assert!(*v >= -limit && *v <= limit);
    }
}

#[test]
fn test_kaiming_normal_stats() {
    let t = Tensor::kaiming_normal(1000, 100);
    let d = t.data();
    let mean: f32 = d.iter().sum::<f32>() / d.len() as f32;
    assert!(mean.abs() < 0.1);
}

#[test]
fn weights_begin_with_the_spread_of_their_rows() {
    assert!((xavier_limit::<Real>(2, 4).0 - 1.0).abs() < 1e-6);
    let half = std::f32::consts::PI;
    let draws = [(Real((-0.5f32).exp()), Real(0.0)), (Real((-2.0f32).exp()), Real(half))];
    let found = floats(&kaiming_weights(8, &draws));
    assert!((found[0] - 0.5).abs() < 1e-6);
    assert!((found[1] + 1.0).abs() < 1e-6);
}

#[test]
fn test_embedding_forward() {
    let emb: Embedding<Tensor> = Embedding::new(10, 4);
    let out = emb.forward_indices(&[0, 3, 7]);
    assert_eq!(out.shape(), vec![3, 4]);
}

#[test]
fn test_mha_forward_shape() {
    let mha: MultiHeadAttention<Tensor> = MultiHeadAttention::new(8, 2);
    let input = Tensor::new(vec![0.1; 4 * 8], vec![4, 8]);
    let out = mha.forward_causal(&input);
    assert_eq!(out.shape(), vec![4, 8]);
}

#[test]
fn test_mha_parameters_count() {
    let mha: MultiHeadAttention<Tensor> = MultiHeadAttention::new(8, 2);
    assert_eq!(mha.parameters().len(), 4);
}

#[test]
fn positions_do_not_see_what_comes_after_them() {
    let mha: MultiHeadAttention<Tensor> = MultiHeadAttention::new(4, 2);
    let row = [0.3, -0.2, 0.5, 0.1, 0.7, 0.2, -0.4, 0.9];
    let mut longer = row.to_vec();
    longer.extend([5.0, -3.0, 2.0, 8.0]);
    for base in [None, Some(Real(100.0))] {
        let attend = |x: &Tensor| match base {
            None => mha.forward_causal(x),
            Some(base) => mha.forward_causal_rope(x, base),
        };
        let short = attend(&Tensor::new(row.to_vec(), vec![2, 4])).data();
        let long = attend(&Tensor::new(longer.clone(), vec![3, 4])).data();
        for (a, b) in short.iter().zip(&long) {
            assert!((a - b).abs() < 1e-5);
        }
    }
}

#[test]
fn keys_and_values_are_cached_without_their_past() {
    let mha: MultiHeadAttention<Tensor> = MultiHeadAttention::new(4, 2);
    mha.wk.weight.set_data(&[
        1.0, 0.0, 0.0, 0.0, 0.0, 1.0, 0.0, 0.0, 0.0, 0.0, 1.0, 0.0, 0.0, 0.0, 0.0, 1.0,
    ]);
    let input = Tensor::new(vec![1.0, 2.0, 3.0, 4.0, 5.0, 6.0, 7.0, 8.0], vec![2, 4]);
    let (key, value) = mha.project_kv_cache(&input, None);
    assert_eq!(key.shape(), vec![2, 2, 2]);
    assert_eq!(key.data(), vec![1.0, 2.0, 5.0, 6.0, 3.0, 4.0, 7.0, 8.0]);
    assert!(!key.requires_grad() && !value.requires_grad());
    let (turned, same) = mha.project_kv_cache(&input, Some(Real(10000.0)));
    assert_ne!(turned.data(), key.data());
    assert_eq!(same.data(), value.data());
}

#[test]
fn test_transformer_block_forward_shape() {
    let block: TransformerBlock<Tensor> = TransformerBlock::new(8, 2, 32);
    let input = Tensor::new(vec![0.1; 4 * 8], vec![4, 8]);
    let out = block.forward_seq(&input);
    assert_eq!(out.shape(), vec![4, 8]);
}

#[test]
fn nothing_is_dropped_outside_of_training() {
    let mut block: TransformerBlock<Tensor> = TransformerBlock::new(4, 2, 8);
    let mut rotary: QwenLikeBlock<Tensor> = QwenLikeBlock::new(4, 2, 8);
    assert!(block.attn_dropout.training && rotary.ffn_dropout.training);
    assert_eq!((block.ffn_dropout.rate, rotary.rope_base), (Real(0.1), Real(10000.0)));
    block.set_training(false);
    rotary.set_training(false);
    let input = Tensor::new(vec![0.1, 0.2, 0.3, 0.4, 0.5, 0.6, 0.7, 0.8], vec![2, 4]);
    assert_eq!(block.forward_seq(&input).data(), block.forward_seq_inference(&input).data());
    assert_eq!(rotary.forward_seq(&input).data(), rotary.forward_seq_inference(&input).data());
    block.set_training(true);
    assert!(block.attn_dropout.training && block.ffn_dropout.training);
}

#[test]
fn test_qwen_like_gpt_forward_and_backward() {
    let mut model: QwenLikeGPT<Tensor> = QwenLikeGPT::new(12, 8, 2, 1, 16, 6);
    model.set_training(false);
    let logits = model.forward_ids(&[0, 1, 2, 3]);
    assert_eq!(logits.shape(), vec![4, 12]);
    let loss = cross_entropy_loss(&logits, &[1, 2, 3, 4]);
    loss.backward();
    assert!(model.parameters().iter().any(|param| param.grad().is_some()));
}

#[test]
fn test_gpt_forward_shape() {
    let gpt: GPT<Tensor> = GPT::new(16, 8, 2, 2, 32, 8);
    let logits = gpt.forward_ids(&[0, 1, 2, 3]);
    assert_eq!(logits.shape(), vec![4, 16]);
}

#[test]
fn test_gpt_parameters() {
    let gpt: GPT<Tensor> = GPT::new(16, 8, 2, 1, 32, 8);
    let params = gpt.parameters();
    assert_eq!(params.len(), 17);
}

#[test]
fn test_gpt_backward_runs() {
    let gpt: GPT<Tensor> = GPT::new(8, 4, 2, 1, 16, 4);
    let logits = gpt.forward_ids(&[0, 1, 2]);
    let loss = cross_entropy_loss(&logits, &[1, 2, 3]);
    loss.backward();
    let param_names = [
        "token_emb",
        "pos_emb",
        "ln1_gamma",
        "ln1_beta",
        "wq",
        "wk",
        "wv",
        "wo",
        "ln2_gamma",
        "ln2_beta",
        "ffn_up_w",
        "ffn_up_b",
        "ffn_down_w",
        "ffn_down_b",
        "ln_f_gamma",
        "ln_f_beta",
        "lm_head",
    ];
    for (i, p) in gpt.parameters().iter().enumerate() {
        let name = if i < param_names.len() { param_names[i] } else { "unknown" };
        assert!(p.grad().is_some(), "param[{}] '{}' has no gradient", i, name);
    }
}

#[test]
fn parameters_are_named_by_their_place() {
    let gpt: GPT<Tensor> = GPT::new(8, 4, 2, 2, 8, 4);
    let named = gpt.named_parameters();
    let names: Vec<&str> = named.iter().map(|p| p.name.as_str()).collect();
    assert_eq!(names.len(), 29);
    assert_eq!(&names[..4], &["token_emb.weight", "pos_emb.weight", "blocks.0.ln1.gamma", "blocks.0.ln1.beta"]);
    assert_eq!(names[4], "blocks.0.attn.wq.weight");
    assert_eq!(names[13], "blocks.0.ffn_down.bias");
    assert_eq!(names[14], "blocks.1.ln1.gamma");
    assert_eq!(&names[26..], &["ln_f.gamma", "ln_f.beta", "lm_head.weight"]);
    for (a, b) in named.iter().zip(gpt.parameters()) {
        assert_eq!(a.tensor.key(), b.key());
    }
    let rotary: QwenLikeGPT<Tensor> = QwenLikeGPT::new(8, 4, 2, 2, 8, 4);
    let names: Vec<String> = rotary.named_parameters().into_iter().map(|p| p.name).collect();
    assert_eq!(names.len(), 27);
    assert_eq!(rotary.parameters().len(), 27);
    assert_eq!(names[1], "blocks.0.norm1.weight");
    assert_eq!(names[9], "blocks.0.ffn_gate.weight");
    for (i, name) in names.iter().enumerate() {
        assert!(!names[..i].contains(name));
    }
    assert_eq!(named_parameter("block", "weight", 7).name, "block.weight");
    assert_eq!(named_parameter("block", "weight", 7).tensor, 7);
}

#[test]
fn test_lora_forward_shape() {
    let lora: LoRALinear<Tensor> = LoRALinear::from_dims(4, 3, true, 2, Real(1.0));
    let input = Tensor::new(vec![1.0; 8], vec![2, 4]);
    let out = lora.forward(&input);
    assert_eq!(out.shape(), vec![2, 3]);
}

#[test]
fn test_lora_only_adapters_trainable() {
    let lora: LoRALinear<Tensor> = LoRALinear::from_dims(4, 3, true, 2, Real(1.0));
    assert_eq!(lora.parameters().len(), 2);
    assert_eq!(lora.all_parameters().len(), 4);
    assert!(!lora.base.weight.requires_grad());
    let names: Vec<String> = lora.named_parameters("adapter").into_iter().map(|p| p.name).collect();
    assert_eq!(
        names,
        vec!["adapter.base.weight", "adapter.base.bias", "adapter.lora_a", "adapter.lora_b"]
    );
}

#[test]
fn test_lora_starts_as_base() {
    let base: Linear<Tensor> = Linear::new(4, 3, false);
    let base_weight_data = base.weight.data();
    let lora = LoRALinear::new(base, 2, Real(1.0));

    let input = Tensor::new(vec![0.1, 0.2, 0.3, 0.4, 0.5, 0.6, 0.7, 0.8], vec![2, 4]);
    let lora_out = lora.forward(&input);

    let wt_data = {
        let w = base_weight_data;
        let mut wt = vec![0.0f32; 4 * 3];
        for i in 0..3 {
            for j in 0..4 {
                wt[j * 3 + i] = w[i * 4 + j];
            }
        }
        wt
    };
    let mut expected = vec![0.0f32; 2 * 3];
    for i in 0..2 {
        for j in 0..3 {
            for k in 0..4 {
                expected[i * 3 + j] += input.data()[i * 4 + k] * wt_data[k * 3 + j];
            }
        }
    }

    let out_data = lora_out.data();
    for i in 0..6 {
        assert!(
            (out_data[i] - expected[i]).abs() < 1e-5,
            "mismatch at {}: got {} expected {}",
            i,
            out_data[i],
            expected[i]
        );
    }
}

#[test]
fn test_lora_backward_runs() {
    let lora: LoRALinear<Tensor> = LoRALinear::from_dims(4, 3, false, 2, Real(1.0));
    let input = Tensor::with_grad(vec![0.1; 8], vec![2, 4], true);
    let out = lora.forward(&input);
    let loss = sum(&out);
    loss.backward();

    assert!(lora.lora_a.grad().is_some(), "lora_a has no gradient");
    assert!(lora.lora_b.grad().is_some(), "lora_b has no gradient");
}

#[test]
fn test_lora_merge() {
    let lora: LoRALinear<Tensor> = LoRALinear::from_dims(4, 3, false, 2, Real(2.0));
    lora.lora_a.set_data(&[1.0, 0.0, 0.0, 0.0, 0.0, 1.0, 0.0, 0.0]);
    lora.lora_b.set_data(&[1.0, 0.0, 0.0, 1.0, 0.0, 0.0]);

    let w_before = lora.base.weight.data();
    merge(&lora);
    let w_after = lora.base.weight.data();

    assert!((w_after[0] - w_before[0] - 1.0).abs() < 1e-6);
    assert!((w_after[5] - w_before[5] - 1.0).abs() < 1e-6);
    assert!((w_after[10] - w_before[10]).abs() < 1e-6);
}

#[test]
fn adapters_are_folded_in_as_far_as_the_weights_go() {
    let shape = LoraShape { out_features: 2, in_features: 2, rank: 1 };
    let mut weight = vec![10u64, 20, 30];
    shape.merge(&mut weight, &[1, 2], &[3, 4], 1);
    assert_eq!(weight, vec![13, 26, 34]);
    assert!(shape.can_merge(3, 2, 2));
    assert!(!shape.can_merge(5, 2, 2));
    assert!(!shape.can_merge(4, 1, 2));
    let empty = LoraShape { out_features: 0, in_features: 2, rank: 1 };
    assert!(empty.can_merge(0, 0, 0));
    let mut none: Vec<u64> = vec![];
    empty.merge(&mut none, &[], &[], 1);
    assert!(none.is_empty());
}

#[test]
fn adapters_that_do_not_fit_are_not_folded_in() {
    let mut lora: LoRALinear<Tensor> = LoRALinear::from_dims(4, 3, false, 2, Real(2.0));
    lora.rank = 3;
    assert!(lora.merged().is_none());
}

#[test]
fn test_lora_finetune_loss_decreases() {
    let layer1: Linear<Tensor> = Linear::new(4, 8, false);
    let layer2: Linear<Tensor> = Linear::new(8, 3, false);

    let lora1 = LoRALinear::new(layer1, 2, Real(1.0));
    let lora2 = LoRALinear::new(layer2, 2, Real(1.0));

    let mut params: Vec<Tensor> = Vec::new();
    params.extend(lora1.parameters());
    params.extend(lora2.parameters());
    assert_eq!(params.len(), 4);

    let lr = 0.05;
    let mut opt = Descent::new(params.clone(), lr);

    let inputs = vec![
        vec![1.0, 0.0, 0.0, 0.0],
        vec![0.0, 1.0, 0.0, 0.0],
        vec![0.0, 0.0, 1.0, 0.0],
        vec![0.0, 0.0, 0.0, 1.0],
    ];
    let targets = vec![0usize, 1, 2, 0];

    let mut losses = Vec::new();

    for _step in 0..30 {
        zero_grad(&params);

        let mut batch_loss = 0.0f32;
        for (inp, &tgt) in inputs.iter().zip(targets.iter()) {
            let x = Tensor::with_grad(inp.clone(), vec![1, 4], false);
            let h = lora1.forward(&x);
            let h_data = h.data();
            let relu_data: Vec<f32> = h_data.iter().map(|v| v.max(0.0)).collect();
            let h_relu = Tensor::new(relu_data, h.shape());
            let logits = lora2.forward(&h_relu);
            let loss = cross_entropy_loss(&logits, &[tgt]);
            loss.backward();
            batch_loss += loss.data()[0];
        }

        losses.push(batch_loss / 4.0);
        opt.step();
    }

    let first_loss = losses[0];
    let last_loss = losses[losses.len() - 1];
    assert!(
        last_loss < first_loss,
        "LoRA fine-tuning should decrease loss: first={:.4} last={:.4}",
        first_loss,
        last_loss
    );

    let b_data = lora1.lora_b.data();
    let b_nonzero: f32 = b_data.iter().map(|v| v.abs()).sum();

    if b_nonzero > 1e-10 {
        let w_before = lora1.base.weight.data();
        merge(&lora1);
        let w_after = lora1.base.weight.data();
        let diff: f32 = w_before.iter().zip(w_after.iter()).map(|(a, b)| (a - b).abs()).sum();
        assert!(diff > 0.0, "merge should change base weights when B is nonzero");
    }
}

#[test]
fn test_dropout_eval_passthrough() {
    let mut drop = Dropout::new(Real(0.5));
    drop.eval();
    let input = Tensor::new(vec![1.0, 2.0, 3.0, 4.0], vec![4]);
    let out = drop.forward(&input);
    assert_eq!(out.data(), vec![1.0, 2.0, 3.0, 4.0]);
}

#[test]
fn test_dropout_zero_rate() {
    let drop = Dropout::new(Real(0.0));
    let input = Tensor::new(vec![1.0, 2.0, 3.0], vec![3]);
    let out = drop.forward(&input);
    assert_eq!(out.data(), vec![1.0, 2.0, 3.0]);
}

#[test]
fn test_dropout_train_has_zeros() {
    let drop = Dropout::new(Real(0.9));
    let input = Tensor::new(vec![1.0; 100], vec![100]);
    let out = drop.forward(&input);
    let zeros = out.data().iter().filter(|&&x| x == 0.0).count();
    assert!(
        zeros > 50,
        "with 90% dropout, most values should be zero, got {} zeros",
        zeros
    );
}

#[test]
fn test_dropout_scale_preserves_mean() {
    let drop = Dropout::new(Real(0.5));
    let input = Tensor::new(vec![2.0; 10000], vec![10000]);
    let out = drop.forward(&input);
    let mean: f32 = out.data().iter().sum::<f32>() / 10000.0;
    assert!((mean - 2.0).abs() < 0.2, "mean should be ~2.0, got {}", mean);
}

#[test]
fn elements_are_dropped_by_their_chance() {
    let mask = dropout_mask(Real(0.75), &reals(&[0.0, 0.5, 0.75, 0.9]));
    assert_eq!(floats(&mask), vec![0.0, 0.0, 4.0, 4.0]);
    let mut drop = Dropout::new(Real(0.75));
    drop.eval();
    drop.train();
    assert!(drop.training);
}

fn sequence_loss(model: &GPT<Tensor>, tokens: &[usize]) -> Tensor {
    assert!(tokens.len() >= 2, "sequence training needs input and target tokens");
    let inputs = &tokens[..tokens.len() - 1];
    let targets = &tokens[1..];
    let logits = model.forward_ids(inputs);
    cross_entropy_loss(&logits, targets)
}

fn average_sequence_loss(model: &GPT<Tensor>, sequences: &[Vec<usize>]) -> f32 {
    let total: f32 = sequences.iter().map(|seq| sequence_loss(model, seq).data()[0]).sum();
    total / sequences.len() as f32
}

#[test]
fn test_tiny_gpt_training_loop_decreases_next_token_loss() {
    let mut model: GPT<Tensor> = GPT::new(6, 4, 2, 1, 8, 4);
    model.set_training(false);
    let params = model.parameters();
    let mut opt = Descent::new(params.clone(), 0.02);
    let sequences = vec![vec![0, 1, 2, 3], vec![1, 2, 3, 4], vec![2, 3, 4, 5]];

    let initial_loss = average_sequence_loss(&model, &sequences);
    let initial_head = model.lm_head.weight.data();

    for _ in 0..6 {
        zero_grad(&params);
        for seq in &sequences {
            sequence_loss(&model, seq).backward();
        }

        for (idx, param) in params.iter().enumerate() {
            assert!(
                param.grad().is_some(),
                "GPT param[{idx}] should receive gradient during next-token training"
            );
        }

        opt.step();
        opt.zero_grad();
        assert!(params.iter().all(|param| param.grad().is_none()));
    }

    let final_loss = average_sequence_loss(&model, &sequences);
    let final_head = model.lm_head.weight.data();
    let head_delta: f32 = initial_head
        .iter()
        .zip(final_head.iter())
        .map(|(before, after)| (before - after).abs())
        .sum();

    assert!(
        final_loss <= initial_loss,
        "tiny GPT should not regress on the fixed next-token task: initial={initial_loss:.6}, final={final_loss:.6}"
    );
    assert!(head_delta > 1e-6, "language-model head should be updated");
}

#[test]
fn test_tiny_gpt_logits_accept_explicit_seed() {
    let mut model: GPT<Tensor> = GPT::new(6, 4, 2, 1, 8, 4);
    model.set_training(false);
    let params = model.parameters();
    let logits = model.forward_ids(&[0, 1, 2]);
    let seed = Tensor::new(vec![1.0; logits.numel()], logits.shape());

    logits.backward_with_grad(&seed);

    assert!(params.iter().any(|param| param.grad().is_some()));
}

struct TinyClassifier {
    proj: Linear<Tensor>,
    norm: LayerNorm<Tensor>,
    head: Linear<Tensor>,
}

impl TinyClassifier {
    fn new() -> Self {
        let proj: Linear<Tensor> = Linear::new(2, 4, true);
        let norm = LayerNorm::new(4);
        let head: Linear<Tensor> = Linear::new(4, 2, true);
        proj.weight.set_data(&[0.35, -0.25, -0.15, 0.30, 0.20, 0.10, -0.10, -0.20]);
        proj.bias.as_ref().unwrap().set_data(&[0.01, -0.02, 0.03, -0.01]);
        head.weight.set_data(&[0.20, -0.10, 0.15, -0.05, -0.15, 0.20, -0.10, 0.10]);
        head.bias.as_ref().unwrap().set_data(&[0.0, 0.0]);
        TinyClassifier { proj, norm, head }
    }

    fn forward(&self, input: &Tensor) -> Tensor {
        let hidden = self.proj.forward(input);
        let hidden = self.norm.forward(&hidden);
        let hidden = relu(&hidden);
        self.head.forward(&hidden)
    }

    fn parameters(&self) -> Vec<Tensor> {
        let mut params = Vec::new();
        params.extend(self.proj.parameters());
        params.extend(self.norm.parameters());
        params.extend(self.head.parameters());
        params
    }
}

fn batch_loss(model: &TinyClassifier, inputs: &[f32], targets: &[usize]) -> Tensor {
    let logits = model.forward(&Tensor::new(inputs.to_vec(), vec![targets.len(), 2]));
    cross_entropy_loss(&logits, targets)
}

#[test]
fn test_tiny_classifier_training_loop_decreases_loss() {
    let model = TinyClassifier::new();
    let params = model.parameters();
    let mut opt = Descent::new(params.clone(), 0.08);
    let inputs = [
        1.0, 0.0, //
        0.8, 0.2, //
        0.0, 1.0, //
        0.2, 0.8,
    ];
    let targets = [0usize, 0, 1, 1];

    let initial_loss = batch_loss(&model, &inputs, &targets).data()[0];
    let initial_head = model.head.weight.data();

    for _ in 0..40 {
        zero_grad(&params);
        let loss = batch_loss(&model, &inputs, &targets);
        assert!(loss.is_scalar());
        loss.backward();

        for (idx, param) in params.iter().enumerate() {
            assert!(
                param.grad().is_some(),
                "trainable param[{idx}] should receive a gradient before optimizer step"
            );
        }

        opt.step();
        opt.zero_grad();
        for (idx, param) in params.iter().enumerate() {
            assert!(
                param.grad().is_none(),
                "optimizer zero_grad should clear param[{idx}] after step"
            );
        }
    }

    let final_loss = batch_loss(&model, &inputs, &targets).data()[0];
    let final_head = model.head.weight.data();
    let head_delta: f32 = initial_head
        .iter()
        .zip(final_head.iter())
        .map(|(before, after)| (before - after).abs())
        .sum();

    assert!(
        final_loss < initial_loss,
        "tiny classifier should reduce loss: initial={initial_loss:.6}, final={final_loss:.6}"
    );
    assert!(head_delta > 1e-5, "classifier head should be updated by SGD");
}

#[test]
fn test_tiny_classifier_logits_require_explicit_seed() {
    let model = TinyClassifier::new();
    let params = model.parameters();
    let logits = model.forward(&Tensor::new(vec![1.0, 0.0, 0.0, 1.0], vec![2, 2]));

    logits.backward_with_grad(&Tensor::new(vec![1.0, -1.0, -1.0, 1.0], vec![2, 2]));

    assert!(params.iter().any(|param| param.grad().is_some()));
}

const IGNORE_INDEX: usize = usize::MAX;

fn masked_sft_sequence(
    tokenizer: &BpeTokenizer,
    prompt: &str,
    answer: &str,
    seq_len: usize,
) -> (Vec<usize>, Vec<usize>) {
    let mut prompt_ids = tokenizer.encode(prompt);
    let mut answer_ids = tokenizer.encode(answer);
    assert!(
        !prompt_ids.is_empty() && !answer_ids.is_empty(),
        "test tokenizer should represent prompt and answer"
    );

    let max_tokens = seq_len + 1;
    while prompt_ids.len() + answer_ids.len() > max_tokens {
        if prompt_ids.len() > 1 {
            prompt_ids.remove(0);
        } else {
            answer_ids.pop();
        }
    }

    let mut tokens = prompt_ids.clone();
    tokens.append(&mut answer_ids);
    assert!(tokens.len() >= 2);

    let input = tokens[..tokens.len() - 1].to_vec();
    let mut targets = tokens[1..].to_vec();
    let prompt_target_len = prompt_ids.len().saturating_sub(1);
    for target in targets.iter_mut().take(prompt_target_len) {
        *target = IGNORE_INDEX;
    }

    (input, targets)
}

fn masked_loss(model: &QwenLikeGPT<Tensor>, input: &[usize], targets: &[usize]) -> Tensor {
    let logits = model.forward_ids(input);
    cross_entropy_loss_ignore_index(&logits, targets, IGNORE_INDEX)
}

fn average_loss(model: &QwenLikeGPT<Tensor>, samples: &[(Vec<usize>, Vec<usize>)]) -> f32 {
    samples
        .iter()
        .map(|(input, targets)| masked_loss(model, input, targets).data()[0])
        .sum::<f32>()
        / samples.len() as f32
}

#[test]
fn test_qwen_like_sft_loop_masks_prompt_and_updates_sql_region() {
    let corpus = [
        "Question: How many employees are there?\nSQL: SELECT COUNT(*) FROM employees;\n",
        "Question: List department names.\nSQL: SELECT name FROM departments;\n",
        "Question: How many orders are paid?\nSQL: SELECT COUNT(*) FROM orders WHERE status = paid;\n",
    ]
    .join("");
    let tokenizer = BpeTokenizer::train(&corpus, 96);
    let seq_len = 18;
    let samples = vec![
        masked_sft_sequence(
            &tokenizer,
            "Question: How many employees are there?\nSQL: ",
            "SELECT COUNT(*) FROM employees;\n",
            seq_len,
        ),
        masked_sft_sequence(
            &tokenizer,
            "Question: List department names.\nSQL: ",
            "SELECT name FROM departments;\n",
            seq_len,
        ),
    ];

    assert!(
        samples
            .iter()
            .all(|(_, targets)| targets.iter().any(|&target| target == IGNORE_INDEX)
                && targets.iter().any(|&target| target != IGNORE_INDEX)),
        "SFT samples should contain both ignored prompt targets and supervised SQL targets"
    );

    let mut model: QwenLikeGPT<Tensor> =
        QwenLikeGPT::new(tokenizer.vocab_size(), 8, 2, 1, 16, seq_len);
    model.set_training(false);
    let params = model.parameters();
    let mut opt = Descent::new(params.clone(), 0.01);
    let initial_loss = average_loss(&model, &samples);
    let initial_head = model.lm_head.weight.data();

    for _ in 0..5 {
        zero_grad(&params);
        for (input, targets) in &samples {
            masked_loss(&model, input, targets).backward();
        }
        assert!(
            params.iter().any(|param| param.grad().is_some()),
            "Qwen-like SFT loop should propagate gradients through RoPE attention and SwiGLU"
        );
        opt.step();
        opt.zero_grad();
    }

    let final_loss = average_loss(&model, &samples);
    let final_head = model.lm_head.weight.data();
    let head_delta: f32 = initial_head
        .iter()
        .zip(final_head.iter())
        .map(|(before, after)| (before - after).abs())
        .sum();

    assert!(
        final_loss.is_finite() && final_loss <= initial_loss,
        "SFT loop should not regress on masked SQL targets: initial={initial_loss:.6}, final={final_loss:.6}"
    );
    assert!(head_delta > 1e-6, "language-model head should be updated");
}

#[test]
fn samples_that_are_ignored_do_not_count() {
    let scores = reals(&[1.0, 2.0, 7.0, 0.0, 3.0, 3.0]);
    let all = |targets: &[usize]| {
        partial_loss::cross_entropy_loss_ignore_index(&scores, 3, 2, targets, 9)
    };
    let found = all(&[9, 9, 1]).unwrap();
    assert!((found.inner.loss.0 - 2.0f32.ln()).abs() < 1e-6);
    assert_eq!(found.counted.indices, vec![2]);
    let grads = found.inner.op.backward(&found.inner.shares, Real(1.0), Real(1.0));
    assert_eq!(floats(&found.counted.backward(&grads)), vec![0.0, 0.0, 0.0, 0.0, 0.5, -0.5]);
    let whole = softmax::cross_entropy_loss(&scores, &[3, 2], &[0, 1, 0]).unwrap();
    assert_eq!(all(&[0, 1, 0]).unwrap().inner, whole);
    assert_eq!(all(&[9, 9, 9]), Err(rows::TargetFault::Missing));
    assert_eq!(all(&[9, 2, 9]), Err(rows::TargetFault::OutOfRange { target: 2, classes: 2 }));
    assert_eq!(all(&[1]), Err(rows::TargetFault::CountMismatch { expected: 3, got: 1 }));
}

#[test]
fn gates_let_through_what_they_are_open_for() {
    let (out, op) = gated::swiglu(&reals(&[2.0, 3.0]), &reals(&[0.0, 1.0]));
    assert_eq!(out[0], Real(0.0));
    let open = 1.0 / (1.0 + (-1.0f32).exp());
    assert!((out[1].0 - 3.0 * open).abs() < 1e-6);
    let (up, gate) = op.backward(&reals(&[1.0, 1.0]));
    assert!((up[1].0 - open).abs() < 1e-6);
    assert_eq!(gate[0], Real(1.0));
    assert!((gate[1].0 - 3.0 * open * (2.0 - open)).abs() < 1e-6);
}

/// A number between zero and one.
fn chance() -> Real {
    Real(rand::thread_rng().gen())
}

#[test]
fn test_constrained_generation_respects_trie() {
    let gpt: GPT<Tensor> = GPT::new(4, 4, 2, 1, 8, 4);
    let mut trie = TokenTrie::new();
    trie.insert(&[0, 1, 2]);

    let result = generate_constrained(&gpt, &[0], 3, 4, 0.01f32.to_bits(), 4, &trie, &chance);
    assert_eq!(result[1], 0, "first generated token should be 0 per trie constraint");
    assert_eq!(result[2], 1, "second generated token should be 1 per trie constraint");
    assert_eq!(result[3], 2, "third generated token should be 2 per trie constraint");
}

#[test]
fn test_inference_batch_sessions_keep_model_kv_cache_spec() {
    let model: QwenLikeGPT<Tensor> = QwenLikeGPT::new(8, 6, 3, 2, 12, 5);
    let config = GenerationConfig::greedy(2, 8);
    let batch = InferenceBatch {
        requests: vec![InferenceRequest::new(7, vec![1, 2], config, 0)],
        total_token_budget: 4,
    };

    let state = activate_qwen_like_inference_batch(&model, batch);
    let session = &state.sessions[0];

    assert_eq!(session.kv_cache.spec(), KvCacheSpec::new(2, 5, 3, 2));
    assert_eq!(session.kv_cache.layer_count(), 2);
    assert_eq!(session.state.context(), &[1, 2]);
    assert_eq!(session.kv_cache.cached_len(), 2);
    assert_eq!(
        session.kv_cache.layer(0).unwrap().key().as_ref().unwrap().shape,
        vec![3, 2, 2]
    );
    assert_eq!(
        session.kv_cache.layer(1).unwrap().value().as_ref().unwrap().shape,
        vec![3, 2, 2]
    );
}

#[test]
fn models_without_layers_have_no_heads_to_share() {
    let gpt: GPT<Tensor> = GPT::new(6, 4, 0, 0, 8, 4);
    assert!(gpt.blocks.is_empty());
    assert_eq!(gpt.forward_ids(&[1, 2]).shape(), vec![2, 6]);
    let rotary: QwenLikeGPT<Tensor> = QwenLikeGPT::new(6, 4, 3, 0, 8, 4);
    assert!(rotary.blocks.is_empty());
    assert_eq!(rotary.forward_ids(&[0]).shape(), vec![1, 6]);
}

#[test]
fn sessions_start_with_empty_caches() {
    let config = GenerationConfig::greedy(2, 8);
    let requests = || vec![
        InferenceRequest::new(7, vec![1, 2], config, 0),
        InferenceRequest::new(8, vec![3], config, 0),
    ];
    let batch = InferenceBatch { requests: requests(), total_token_budget: 4 };
    let spec = KvCacheSpec::new(2, 5, 3, 2);
    let state: InferenceBatchState<Real> =
        InferenceBatchState::from_batch_with_kv_cache_spec(batch, spec);
    assert_eq!(state.sessions.len(), 2);
    for session in &state.sessions {
        assert_eq!(session.kv_cache.spec(), spec);
        assert!(session.kv_cache.is_empty());
        assert!(session.kv_cache.layer(1).unwrap().key().is_none());
    }
    let batch = InferenceBatch { requests: requests(), total_token_budget: 4 };
    let state: InferenceBatchState<Real> = InferenceBatchState::from_batch(batch, 6);
    assert_eq!(state.sessions[1].kv_cache.spec(), KvCacheSpec::token_only(6));
    assert!(state.sessions[1].kv_cache.is_empty());
}

#[test]
fn caches_are_filled_with_what_models_project() {
    let model: GPT<Tensor> = GPT::new(8, 4, 2, 2, 8, 6);
    let mut cache = KvCache::new(model.kv_cache_spec());
    assert!(model.prefill_kv_cache(&[1, 2, 3], &mut cache));
    assert_eq!(cache.cached_len(), 3);
    let pairs = model.project(&[1, 2, 3]);
    assert_eq!(cache.layer(1).unwrap().key().as_ref().unwrap(), &pairs[1].0);
    assert!(model.prefill_kv_cache(&[], &mut cache));
    assert!(cache.is_empty());
    let mut uneven: GPT<Tensor> = GPT::new(8, 4, 2, 2, 8, 6);
    uneven.blocks[1].attn.n_head = 4;
    uneven.blocks[1].attn.head_dim = 1;
    let mut cache = KvCache::new(uneven.kv_cache_spec());
    assert!(!uneven.prefill_kv_cache(&[1], &mut cache));
    assert!(cache.is_empty());
    let empty: QwenLikeGPT<Tensor> = QwenLikeGPT::new(8, 4, 2, 0, 8, 6);
    assert_eq!(empty.kv_cache_spec(), KvCacheSpec::token_only(6));
    assert!(empty.project(&[1]).is_empty());
}

#[test]
fn test_qwen_like_generation_uses_shared_config() {
    let model: QwenLikeGPT<Tensor> = QwenLikeGPT::new(6, 4, 2, 1, 8, 5);
    let config = GenerationConfig::greedy(2, 6);
    let output = generate_qwen_like_with_config(&model, &[0, 1], config, &chance);

    assert_eq!(output.len(), 4);
}

#[test]
fn test_generation_stops_immediately_when_prompt_already_has_eos() {
    let model: GPT<Tensor> = GPT::new(6, 4, 2, 1, 8, 5);
    let config = GenerationConfig {
        eos_token_id: Some(2),
        ..GenerationConfig::greedy(3, 6)
    };
    let output = generate_with_config(&model, &[1, 2], config, &chance);

    assert_eq!(output, vec![1, 2]);
}

#[test]
fn test_generation_stops_after_sampling_eos_token() {
    let model: QwenLikeGPT<Tensor> = QwenLikeGPT::new(6, 1, 1, 0, 1, 5);
    model.token_emb.weight.set_data(&[0.0, 1.0, 0.0, 0.0, 0.0, 0.0]);
    model.lm_head.weight.set_data(&[0.0, 0.0, 0.0, 5.0, 0.0, 0.0]);

    let config = GenerationConfig {
        eos_token_id: Some(3),
        ..GenerationConfig::greedy(4, 6)
    };
    let output = generate_qwen_like_with_config(&model, &[1], config, &chance);

    assert_eq!(output, vec![1, 3]);
}

#[test]
fn test_decode_next_token_appends_to_state_and_returns_candidates() {
    let mut model: GPT<Tensor> = GPT::new(6, 4, 2, 1, 8, 5);
    model.set_training(false);
    let mut state = InferenceState::new(&[1], model.seq_len);
    let config = GenerationConfig::greedy(4, 6);

    let step = decode_next_token(&model, &mut state, &config, &chance);

    assert!(step.token_id.is_some());
    assert_eq!(step.stop_reason, DecodeStopReason::NotStopped);
    assert!(!step.candidates.is_empty());
    assert_eq!(state.tokens().len(), 2);
    assert_eq!(state.generated_tokens(), &[step.token_id.unwrap()]);
}

#[test]
fn test_decode_constrained_next_token_respects_trie_prefix() {
    let model: GPT<Tensor> = GPT::new(4, 4, 2, 1, 8, 4);
    let mut state = InferenceState::new(&[1], model.seq_len);
    let config = GenerationConfig::greedy(3, 4);
    let mut trie = TokenTrie::new();
    trie.insert(&[2, 3]);

    let step = decode_constrained_next_token(&model, &mut state, &config, &trie, &chance);

    assert_eq!(step.token_id, Some(2));
    assert_eq!(step.stop_reason, DecodeStopReason::NotStopped);
    assert_eq!(state.generated_tokens(), &[2]);
}

#[test]
fn test_decode_next_token_stops_when_state_already_ended() {
    let model: GPT<Tensor> = GPT::new(6, 4, 2, 1, 8, 5);
    let mut state = InferenceState::new(&[1, 2], model.seq_len);
    let config = GenerationConfig {
        eos_token_id: Some(2),
        ..GenerationConfig::greedy(4, 6)
    };

    let step = decode_next_token(&model, &mut state, &config, &chance);

    assert!(step.finished);
    assert_eq!(step.token_id, None);
    assert_eq!(step.stop_reason, DecodeStopReason::AlreadyEnded);
    assert!(step.candidates.is_empty());
    assert_eq!(state.tokens(), &[1, 2]);
}

#[test]
fn test_decode_constrained_next_token_reports_no_candidates() {
    let model: GPT<Tensor> = GPT::new(4, 4, 2, 1, 8, 4);
    let mut state = InferenceState::new(&[1], model.seq_len);
    let config = GenerationConfig::greedy(3, 4);
    let mut trie = TokenTrie::new();
    trie.insert(&[99]);

    let step = decode_constrained_next_token(&model, &mut state, &config, &trie, &chance);

    assert!(step.finished);
    assert_eq!(step.token_id, None);
    assert_eq!(step.stop_reason, DecodeStopReason::NoCandidates);
    assert_eq!(state.tokens(), &[1]);
}

#[test]
fn test_inference_batch_state_activates_sessions() {
    let model: GPT<Tensor> = GPT::new(8, 4, 2, 1, 8, 6);
    let config = GenerationConfig::greedy(2, 8);
    let batch = InferenceBatch {
        requests: vec![
            InferenceRequest::new(10, vec![1, 2], config, 0),
            InferenceRequest::new(11, vec![3], config, 1),
        ],
        total_token_budget: 0,
    };

    let state = activate_inference_batch(&model, batch);

    assert_eq!(state.request_ids(), vec![10, 11]);
    assert_eq!(state.active_len(), 2);
    assert_eq!(state.sessions[0].tokens(), &[1, 2]);
    assert_eq!(state.sessions[0].kv_cache.cached_len(), 2);
    assert_eq!(state.sessions[1].kv_cache.cached_len(), 1);
}

#[test]
fn test_decode_inference_batch_round_advances_each_active_session() {
    let mut model: GPT<Tensor> = GPT::new(8, 4, 2, 1, 8, 6);
    model.set_training(false);
    let config = GenerationConfig::greedy(2, 8);
    let batch = InferenceBatch {
        requests: vec![
            InferenceRequest::new(1, vec![1], config, 0),
            InferenceRequest::new(2, vec![2], config, 1),
        ],
        total_token_budget: 0,
    };
    let mut state = activate_inference_batch(&model, batch);

    let steps = decode_inference_batch_round(&model, &mut state, &chance);

    assert_eq!(steps.len(), 2);
    assert_eq!(steps.iter().map(|step| step.request_id).collect::<Vec<_>>(), vec![1, 2]);
    assert_eq!(state.sessions[0].generated_steps, 1);
    assert_eq!(state.sessions[1].generated_steps, 1);
    assert_eq!(state.sessions[0].generated_tokens().len(), 1);
    assert_eq!(state.sessions[1].generated_tokens().len(), 1);
    assert_eq!(
        state.sessions[0].kv_cache.cached_len(),
        state.sessions[0].state.context().len()
    );
    assert_eq!(
        state.sessions[1].kv_cache.cached_len(),
        state.sessions[1].state.context().len()
    );
}

#[test]
fn test_decode_inference_batch_round_marks_max_new_tokens() {
    let mut model: GPT<Tensor> = GPT::new(8, 4, 2, 1, 8, 6);
    model.set_training(false);
    let config = GenerationConfig::greedy(1, 8);
    let batch = InferenceBatch {
        requests: vec![InferenceRequest::new(1, vec![1], config, 0)],
        total_token_budget: 0,
    };
    let mut state = activate_inference_batch(&model, batch);

    let first = decode_inference_batch_round(&model, &mut state, &chance);
    assert_eq!(first.len(), 1);
    assert_eq!(state.sessions[0].generated_steps, 1);
    assert!(state.is_finished());
    assert_eq!(state.sessions[0].stop_reason, DecodeStopReason::MaxNewTokens);

    let second = decode_inference_batch_round(&model, &mut state, &chance);
    assert!(second.is_empty());
}

#[test]
fn test_inference_batch_state_skips_prompt_that_already_ended() {
    let model: GPT<Tensor> = GPT::new(8, 4, 2, 1, 8, 6);
    let config = GenerationConfig {
        eos_token_id: Some(2),
        ..GenerationConfig::greedy(3, 8)
    };
    let batch = InferenceBatch {
        requests: vec![InferenceRequest::new(1, vec![1, 2], config, 0)],
        total_token_budget: 0,
    };
    let mut state = activate_inference_batch(&model, batch);

    assert!(state.is_finished());
    assert_eq!(state.sessions[0].stop_reason, DecodeStopReason::AlreadyEnded);
    assert!(decode_inference_batch_round(&model, &mut state, &chance).is_empty());
}

/// A model that scores every token by its weight alone, whatever came before.
fn leaning(weights: &[f32]) -> GPT<Tensor> {
    let mut model: GPT<Tensor> = GPT::new(weights.len(), 1, 1, 0, 1, 4);
    model.set_training(false);
    model.ln_f.gamma.set_data(&[0.0]);
    model.ln_f.beta.set_data(&[1.0]);
    model.lm_head.weight.set_data(weights);
    model
}

#[test]
fn greedy_generation_needs_no_chance() {
    let model = leaning(&[0.5, -1.0, 2.0, 1.5]);
    for threshold in [0.0f32, 0.3, 1.0, 7.0] {
        let tokens = generate_greedy(&model, &[1], 3, 4, &|| Real(threshold));
        assert_eq!(tokens, vec![1, 2, 2, 2]);
    }
    assert_eq!(generate_greedy(&model, &[], 0, 4, &chance), Vec::<usize>::new());
}

#[test]
fn sampling_follows_chance_over_the_best_candidates() {
    let model = leaning(&[0.5, -1.0, 2.0, 1.5]);
    let one = 1.0f32.to_bits();
    let first = generate_with_sampling(&model, &[0], 2, 4, one, 2, &|| Real(0.1));
    assert_eq!(first, vec![0, 2, 2]);
    let last = generate_with_sampling(&model, &[0], 2, 4, one, 2, &|| Real(0.99));
    assert_eq!(last, vec![0, 3, 3]);
    let config = GenerationConfig { top_k: 2, ..GenerationConfig::new(2, 4) };
    assert_eq!(generate_with_config(&model, &[0], config, &|| Real(0.99)), last);
}

#[test]
fn rotary_models_decode_like_the_others() {
    let mut model: QwenLikeGPT<Tensor> = QwenLikeGPT::new(6, 4, 2, 1, 8, 5);
    model.set_training(false);
    let config = GenerationConfig::greedy(2, 6);
    let mut state = InferenceState::new(&[1], model.max_context_len());
    let step = decode_qwen_like_next_token(&model, &mut state, &config, &chance);
    let tokens = generate_qwen_like_with_config(&model, &[1], config, &chance);
    assert_eq!(state.tokens(), &tokens[..2]);
    assert_eq!(step.token_id, Some(tokens[1]));
    let batch = InferenceBatch {
        requests: vec![InferenceRequest::new(3, vec![1], config, 0)],
        total_token_budget: 0,
    };
    let mut batch = activate_qwen_like_inference_batch(&model, batch);
    let first = decode_qwen_like_inference_batch_round(&model, &mut batch, &chance);
    assert_eq!(first[0].step.token_id, Some(tokens[1]));
    decode_qwen_like_inference_batch_round(&model, &mut batch, &chance);
    assert_eq!(batch.sessions[0].tokens(), &tokens[..]);
    assert!(batch.is_finished());
    let cached = PrefillCache::project(&model, &tokens);
    let held = batch.sessions[0].kv_cache.layer(0).unwrap();
    assert_eq!(held.key().as_ref().unwrap(), &cached[0].0);
}

#[test]
fn ended_tokens_are_left_alone_whatever_the_vocabulary() {
    let model = leaning(&[0.5, -1.0, 2.0, 1.5]);
    let config = GenerationConfig { eos_token_id: Some(3), ..GenerationConfig::greedy(2, 100) };
    assert_eq!(generate_with_config(&model, &[0, 3], config, &chance), vec![0, 3]);
    let mut state = InferenceState::new(&[3], model.max_context_len());
    let step = decode_next_token(&model, &mut state, &config, &chance);
    assert_eq!(step.stop_reason, DecodeStopReason::AlreadyEnded);
    assert_eq!(state.tokens(), &[3]);
}

#[test]
fn layer_norm_goes_by_its_own_row_length() {
    let mut layer: LayerNorm<Tensor> = LayerNorm::new(4);
    layer.normalized_shape = 2;
    layer.gamma.set_data(&[2.0, 3.0, 9.0, 9.0]);
    layer.beta.set_data(&[1.0, -1.0, 9.0, 9.0]);
    layer.eps = Real(0.0);
    let input = Tensor::new(vec![1.0, 3.0, 10.0, 18.0, 7.0], vec![5]);
    assert_eq!(layer.forward(&input).data(), vec![-1.0, 2.0, -1.0, 2.0, 0.0]);
}
