//! Shapes, layouts, storage formats and the moves of elements.

use sptorch::tensor::dtype::{DType, Device};
use sptorch::tensor::grad::accum_grad;
use sptorch::tensor::grad_mode::{is_grad_enabled, no_grad, set_grad_enabled, GradMode};
use sptorch::tensor::half;
use sptorch::tensor::half::{has_nan_inf, store_as};
use sptorch::tensor::layout::{
    contiguous_data, is_contiguous, unbroadcast_grad, unbroadcast_targets,
};
use sptorch::tensor::ops;
use sptorch::tensor::ops::{
    concat_shape, embedding_lookup, masked_fill, neg, pick, reshape,
    transpose, AddOp, BroadcastAddOp, MaskedFillOp, NegOp, ReluOp, SumOp, TransposeOp,
};
use sptorch::tensor::shape::{
    broadcast_shape, can_broadcast, compute_strides, unravel_index, TensorError,
};
use sptorch::tensor::storage::{DeviceBuffer, Storage};
use sptorch::tensor::tensor::{Tensor, TensorPool};

fn f32_to_f16(v: f32) -> u16 {
    half::f32_to_f16(v.to_bits())
}

fn f16_to_f32(h: u16) -> f32 {
    f32::from_bits(half::f16_to_f32(h))
}

fn f32_to_bf16(v: f32) -> u16 {
    half::f32_to_bf16(v.to_bits())
}

fn bf16_to_f32(b: u16) -> f32 {
    f32::from_bits(half::bf16_to_f32(b))
}

/// A tensor of single precision numbers, held by their bits, in a pool of its own.
fn tensor(values: &[f32], shape: Vec<usize>) -> (TensorPool<u32>, Tensor) {
    let mut pool = TensorPool::new();
    let t = Tensor::new(&mut pool, bits_of(values), shape);
    (pool, t)
}

/// The numbers that a tensor holds.
fn floats(pool: &TensorPool<u32>, t: Tensor) -> Vec<f32> {
    t.data(pool).iter().map(|bits| f32::from_bits(*bits)).collect()
}

#[test]
fn test_f32_f16_roundtrip() {
    let vals = [0.0f32, 1.0, -1.0, 0.5, 65504.0, -65504.0, 1e-4];
    for &v in &vals {
        let h = f32_to_f16(v);
        let back = f16_to_f32(h);
        assert!(
            (back - v).abs() / (v.abs() + 1e-10) < 0.01,
            "f16 roundtrip failed for {}: got {}",
            v,
            back
        );
    }
}

#[test]
fn test_f32_bf16_roundtrip() {
    let vals = [0.0f32, 1.0, -1.0, 3.14, 1e10, -1e10];
    for &v in &vals {
        let b = f32_to_bf16(v);
        let back = bf16_to_f32(b);
        assert!(
            (back - v).abs() / (v.abs() + 1e-10) < 0.01,
            "bf16 roundtrip failed for {}: got {}",
            v,
            back
        );
    }
}

#[test]
fn test_grad_mode_no_grad_restores_state() {
    let mut mode = GradMode::default();
    assert!(is_grad_enabled(&mode));
    let result = no_grad(&mut mode, |mode: &mut GradMode| {
        assert!(!is_grad_enabled(mode));
        42
    });
    assert_eq!(result, 42);
    assert!(is_grad_enabled(&mode));
}

#[test]
fn test_broadcast_shape_scalar_tail_and_batch() {
    assert_eq!(broadcast_shape(&[2, 3], &[1]).unwrap(), vec![2, 3]);
    assert_eq!(broadcast_shape(&[2, 3], &[3]).unwrap(), vec![2, 3]);
    assert_eq!(broadcast_shape(&[4, 2, 3], &[1, 3]).unwrap(), vec![4, 2, 3]);
    assert!(broadcast_shape(&[2, 3], &[2]).is_err());
}

#[test]
fn half_bits_have_their_known_values() {
    assert_eq!(f32_to_f16(1.0), 0x3c00);
    assert_eq!(f32_to_f16(-2.0), 0xc000);
    assert_eq!(f32_to_f16(65504.0), 0x7bff);
    assert_eq!(f32_to_f16(f32::INFINITY), 0x7c00);
    assert_eq!(f32_to_f16(1e-10), 0);
    assert_eq!(f16_to_f32(0x3800), 0.5);
    assert_eq!(f32_to_bf16(1.0), 0x3f80);
    assert_eq!(bf16_to_f32(0x4000), 2.0);
}

#[test]
fn half_precision_keeps_nan_and_infinity() {
    for bits in [0x7f80_0001u32, 0x7fc0_0000, 0xff80_0001, 0xffff_ffff] {
        assert_eq!(half::f32_to_f16(bits) & 0x7fff, 0x7c01);
        assert!(f32::from_bits(store_as(bits, DType::F16)).is_nan());
    }
    assert_eq!(half::f32_to_f16(0xff80_0000), 0xfc00);
    assert_eq!(store_as(0xff80_0000, DType::F16), 0xff80_0000);
}

#[test]
fn halves_come_back_from_single_precision() {
    for half in [0u16, 0x0001, 0x03ff, 0x0400, 0x3c00, 0x7bff, 0x7c00, 0x8000, 0xfc00] {
        let bits = f16_to_f32(half);
        if half & 0x7c00 == 0 && half & 0x3ff != 0 {
            continue;
        }
        assert_eq!(f32_to_f16(bits), half);
    }
    for brain in [0u16, 0x3f80, 0xbf80, 0x7f80, 0x0001, 0xffff] {
        assert_eq!(f32_to_bf16(bf16_to_f32(brain)), brain);
    }
}

#[test]
fn not_a_number_and_infinity_are_found() {
    let bits = |values: &[f32]| -> Vec<u32> { values.iter().map(|v| v.to_bits()).collect() };
    assert!(!has_nan_inf(&bits(&[0.0, -1.0, f32::MAX])));
    assert!(has_nan_inf(&bits(&[0.0, f32::NAN])));
    assert!(has_nan_inf(&bits(&[f32::NEG_INFINITY])));
}

#[test]
fn grad_mode_guards_restore_what_was() {
    let mut mode = GradMode::default();
    let guard = set_grad_enabled(&mut mode, false);
    assert!(!is_grad_enabled(&mode));
    let inner = set_grad_enabled(&mut mode, true);
    assert!(is_grad_enabled(&mode));
    inner.restore(&mut mode);
    assert!(!is_grad_enabled(&mode));
    guard.restore(&mut mode);
    assert!(is_grad_enabled(&mode));
}

#[test]
fn guards_nest_inside_of_no_grad() {
    let mut mode = GradMode::default();
    let seen = no_grad(&mut mode, |mode: &mut GradMode| {
        let guard = set_grad_enabled(mode, true);
        let inside = is_grad_enabled(mode);
        let deeper = no_grad(mode, |mode: &mut GradMode| is_grad_enabled(mode));
        guard.restore(mode);
        (inside, deeper, is_grad_enabled(mode))
    });
    assert_eq!(seen, (true, false, false));
    assert!(is_grad_enabled(&mode));
    no_grad(&mut mode, |mode: &mut GradMode| mode.enabled = true);
    mode.enabled = false;
    no_grad(&mut mode, |mode: &mut GradMode| mode.enabled = true);
    assert!(!is_grad_enabled(&mode));
}

#[test]
fn strides_and_indices_are_row_major() {
    assert_eq!(compute_strides(&[2, 3, 4]), vec![12, 4, 1]);
    assert_eq!(unravel_index(17, &[2, 3, 4]), vec![1, 1, 1]);
    assert!(can_broadcast(&[2, 1], &[3]));
    assert!(!can_broadcast(&[2], &[3]));
}

#[test]
fn views_are_read_in_logical_order() {
    let data = [1, 2, 3, 4, 5, 6];
    assert!(is_contiguous(&[2, 3], &[3, 1]));
    assert!(!is_contiguous(&[3, 2], &[1, 3]));
    assert_eq!(contiguous_data(&data, 0, &[3, 2], &[1, 3]), vec![1, 4, 2, 5, 3, 6]);
    assert_eq!(contiguous_data(&data, 3, &[3], &[1]), vec![4, 5, 6]);
}

#[test]
fn tensor_errors_name_both_sides() {
    let err = broadcast_shape(&[2, 3], &[2]).unwrap_err();
    assert!(matches!(err, TensorError::ShapeMismatch { .. }));
    assert!(err.message().contains("[2, 3]"));
    let shown = TensorError::DeviceMismatch { expected: Device::CPU, got: Device::Cuda(1) };
    assert!(shown.message().contains("Cuda(1)"));
    let shown = TensorError::DTypeMismatch { expected: DType::F32, got: DType::BF16 };
    assert!(shown.message().contains("BF16"));
}

fn bits_of(values: &[f32]) -> Vec<u32> {
    values.iter().map(|v| v.to_bits()).collect()
}

#[test]
fn test_neg_forward() {
    assert_eq!(neg(&bits_of(&[2.0, -3.0])), bits_of(&[-2.0, 3.0]));
}

#[test]
fn test_neg_backward() {
    assert_eq!(NegOp.backward(&bits_of(&[1.0])), bits_of(&[-1.0]));
}

#[test]
fn test_add_backward() {
    let (x, y) = AddOp.backward(&[1.0]);
    assert_eq!(x, vec![1.0]);
    assert_eq!(y, vec![1.0]);
}

#[test]
fn test_sum_backward() {
    let op = SumOp { input_shape: vec![3] };
    assert_eq!(op.backward(1.0), vec![1.0, 1.0, 1.0]);
}

#[test]
fn test_reshape_forward() {
    assert!(reshape(&[2, 3], &[3, 2]).is_some());
}

#[test]
fn test_reshape_backward() {
    let op = reshape(&[2, 3], &[3, 2]).unwrap();
    let (grad, shape) = op.backward(&[1.0; 6]);
    assert_eq!(grad, vec![1.0; 6]);
    assert_eq!(shape, vec![2, 3]);
}

#[test]
fn reshape_keeps_the_count() {
    assert!(reshape(&[2, 3], &[4]).is_none());
    let op = reshape(&[2, 3], &[6]).unwrap();
    assert_eq!(op.backward(&[1, 2, 3, 4, 5, 6]).0, vec![1, 2, 3, 4, 5, 6]);
}

#[test]
fn test_transpose_forward() {
    assert_eq!(
        transpose(&[1.0, 2.0, 3.0, 4.0, 5.0, 6.0], 2, 3),
        vec![1.0, 4.0, 2.0, 5.0, 3.0, 6.0]
    );
}

#[test]
fn test_transpose_backward() {
    assert_eq!(TransposeOp.backward(&[1.0; 4], 2, 2), vec![1.0; 4]);
}

#[test]
fn transposing_back_restores() {
    let data = [1, 2, 3, 4, 5, 6];
    assert_eq!(TransposeOp.backward(&transpose(&data, 2, 3), 3, 2), data.to_vec());
}

#[test]
fn lib_test_embedding_forward() {
    let w = [0.1, 0.2, 0.3, 0.4, 0.5, 0.6, 0.7, 0.8, 0.9, 1.0, 1.1, 1.2];
    let (out, _op) = embedding_lookup(&w, 4, 3, &[0, 2, 3]).unwrap();
    assert_eq!(out, vec![0.1, 0.2, 0.3, 0.7, 0.8, 0.9, 1.0, 1.1, 1.2]);
}

#[test]
fn embedding_rows_lie_at_their_places() {
    let w = [10, 20, 30, 40, 50, 60];
    let (out, op) = embedding_lookup(&w, 3, 2, &[2, 0]).unwrap();
    assert_eq!(op.places(), vec![4, 5, 0, 1]);
    assert_eq!(pick(&w, &op.places()), out);
    assert!(embedding_lookup(&w, 3, 2, &[3]).is_none());
}

#[test]
fn test_masked_fill_forward() {
    let mask = vec![false, true, false, true];
    let d = masked_fill(&[1.0, 2.0, 3.0, 4.0], &mask, f32::NEG_INFINITY);
    assert_eq!(d[0], 1.0);
    assert_eq!(d[1], f32::NEG_INFINITY);
    assert_eq!(d[2], 3.0);
    assert_eq!(d[3], f32::NEG_INFINITY);
}

#[test]
fn test_masked_fill_backward() {
    let op = MaskedFillOp { mask: vec![false, true, false, true] };
    assert_eq!(op.backward(&[1.0; 4], 0.0), vec![1.0, 0.0, 1.0, 0.0]);
}

#[test]
fn masks_reach_as_far_as_the_gradient() {
    let op = MaskedFillOp { mask: vec![true, false] };
    assert_eq!(op.backward(&[1, 2, 3], 0), vec![0, 2]);
    assert_eq!(op.backward(&[1], 0), vec![0]);
    let op = ReluOp { mask: vec![true, false, true] };
    assert_eq!(op.backward(&[5, 6], 0), vec![5, 0]);
}

#[test]
fn lookups_need_the_rows_that_they_name() {
    let (out, op) = embedding_lookup(&[1u64, 2, 3, 4], 5, 2, &[1, 1]).unwrap();
    assert_eq!(out, vec![3, 4, 3, 4]);
    assert_eq!(op.backward(&[1u64, 2, 3, 4, 9]), vec![0, 0, 4, 6, 0, 0, 0, 0, 0, 0]);
}

#[test]
fn folding_back_goes_as_far_as_the_gradient() {
    assert_eq!(unbroadcast_grad(&[1u64, 2, 3, 4], &[2, 3], &[3]), vec![5, 2, 3]);
    assert_eq!(unbroadcast_grad(&[1u64, 2], &[7], &[0, 2]), Vec::<u64>::new());
}

#[test]
fn test_relu_backward() {
    let input = [-1.0, 0.0, 1.0, 2.0];
    let op = ReluOp { mask: input.iter().map(|&x| x > 0.0).collect() };
    assert_eq!(op.backward(&[1.0; 4], 0.0), vec![0.0, 0.0, 1.0, 1.0]);
}

#[test]
fn test_concat_forward() {
    let shapes = vec![vec![1, 2], vec![2, 2]];
    assert_eq!(concat_shape(&shapes), Some(vec![3, 2]));
    let (c, _op) = ops::concat(&vec![vec![1.0, 2.0], vec![3.0, 4.0, 5.0, 6.0]], shapes);
    assert_eq!(c, vec![1.0, 2.0, 3.0, 4.0, 5.0, 6.0]);
}

#[test]
fn test_concat_backward() {
    let shapes = vec![vec![1, 2], vec![2, 2]];
    let (_c, op) = ops::concat(&vec![vec![1.0, 2.0], vec![3.0, 4.0, 5.0, 6.0]], shapes);
    let grads = op.backward(&[1.0; 6]);
    assert_eq!(grads[0], vec![1.0, 1.0]);
    assert_eq!(grads[1], vec![1.0, 1.0, 1.0, 1.0]);
}

#[test]
fn concatenation_splits_back() {
    let parts = vec![vec![1, 2], vec![3, 4, 5, 6]];
    let (joined, op) = ops::concat(&parts, vec![vec![1, 2], vec![2, 2]]);
    assert_eq!(op.backward(&joined), parts);
    assert_eq!(concat_shape(&vec![vec![1, 2], vec![2, 3]]), None);
}


#[test]
fn broadcast_places_repeat() {
    let op = BroadcastAddOp { b_shape: vec![3] };
    assert_eq!(op.places(6), vec![0, 1, 2, 0, 1, 2]);
    assert_eq!(op.places(4), vec![0, 1, 2, 0]);
}

#[test]
fn unbroadcast_places_fold_back() {
    assert_eq!(unbroadcast_targets(&[2, 3], &[3]), vec![0, 1, 2, 0, 1, 2]);
    assert_eq!(unbroadcast_targets(&[2, 3], &[2, 1]), vec![0, 0, 0, 1, 1, 1]);
}

#[test]
fn formats_keep_what_they_can() {
    assert_eq!(store_as(1.0f32.to_bits(), DType::F16), 1.0f32.to_bits());
    assert_eq!(store_as(0x3f80_ffff, DType::BF16), 0x3f80_0000);
    assert_eq!(store_as(0x3f80_ffff, DType::F32), 0x3f80_ffff);
}

#[test]
fn test_tensor_dtype() {
    let (pool, t) = tensor(&[1.0, 2.0, 3.0], vec![3]);
    assert_eq!(t.dtype(&pool), DType::F32);
}

#[test]
fn test_tensor_half() {
    let (mut pool, t) = tensor(&[1.0, 2.0, 3.0], vec![3]);
    let h = t.half(&mut pool);
    assert_eq!(h.dtype(&pool), DType::F16);
    assert_eq!(h.shape(&pool), &vec![3]);
    let d = floats(&pool, h);
    assert!((d[0] - 1.0).abs() < 1e-3);
    assert!((d[1] - 2.0).abs() < 1e-3);
    assert!((d[2] - 3.0).abs() < 1e-3);
}

#[test]
fn test_tensor_bfloat16() {
    let (mut pool, t) = tensor(&[1.0, 2.0, 3.0], vec![3]);
    let b = t.bfloat16(&mut pool);
    assert_eq!(b.dtype(&pool), DType::BF16);
    let d = floats(&pool, b);
    assert!((d[0] - 1.0).abs() < 0.02);
    assert!((d[1] - 2.0).abs() < 0.02);
    assert!((d[2] - 3.0).abs() < 0.02);
}

#[test]
fn test_tensor_float_roundtrip() {
    let (mut pool, t) = tensor(&[1.5, 2.5, 3.5], vec![3]);
    let h = t.half(&mut pool);
    let back = h.float(&mut pool);
    assert_eq!(back.dtype(&pool), DType::F32);
    let d = floats(&pool, back);
    assert!((d[0] - 1.5).abs() < 1e-3);
}

#[test]
fn test_tensor_to_dtype_noop() {
    let (mut pool, t) = tensor(&[1.0], vec![1]);
    let same = t.to_dtype(&mut pool, DType::F32);
    assert_eq!(same.data(&pool), t.data(&pool));
}

#[test]
fn test_f16_precision_loss() {
    let (mut pool, t) = tensor(&[1.001], vec![1]);
    let h = t.half(&mut pool);
    let d = floats(&pool, h);
    assert!((d[0] - 1.001).abs() < 0.002);
}

#[test]
fn formats_and_devices_of_their_own_are_the_same_tensor() {
    let (mut pool, t) = tensor(&[1.0, 2.0], vec![2]);
    t.set_requires_grad(&mut pool, true);
    assert_eq!(t.float(&mut pool), t);
    assert_eq!(t.cpu(&mut pool), t);
    assert_eq!(t.to_device(&mut pool, Device::CPU), t);
    assert_eq!(pool.inners.len(), 1);

    let moved = t.cuda(&mut pool);
    assert_ne!(moved, t);
    assert!(moved.requires_grad(&pool));
    moved.data_mut(&mut pool)[0] = 7;
    assert_eq!(floats(&pool, t), vec![1.0, 2.0]);
    let half = moved.half(&mut pool);
    assert_eq!(half.device(&pool), Device::CPU);
    assert!(!half.requires_grad(&pool));
}

#[test]
fn test_detach_keeps_data_but_clears_autograd_state() {
    let mut pool = TensorPool::new();
    let t = Tensor::with_grad(&mut pool, vec![1u64, 2], vec![2], true);
    let g = Tensor::new(&mut pool, vec![3, 4], vec![2]);
    t.accum_grad(&mut pool, &g);

    let detached = t.detach(&mut pool);
    assert_eq!(detached.data(&pool), &vec![1, 2]);
    assert_eq!(detached.shape(&pool), &vec![2]);
    assert!(!detached.requires_grad(&pool));
    assert!(detached.grad(&pool).is_none());
}

#[test]
fn detached_tensors_see_each_others_elements() {
    let mut pool = TensorPool::new();
    let t = Tensor::with_grad(&mut pool, vec![1u64, 2], vec![2], true);
    let detached = t.detach(&mut pool);
    t.data_mut(&mut pool)[0] = 10;
    assert_eq!(detached.data(&pool), &vec![10, 2]);
    detached.data_mut(&mut pool)[1] = 20;
    assert_eq!(t.data(&pool), &vec![10, 20]);

    let g = Tensor::new(&mut pool, vec![3, 4], vec![2]);
    t.accum_grad(&mut pool, &g);
    assert!(detached.grad(&pool).is_none());
    detached.set_requires_grad(&mut pool, true);
    detached.accum_grad(&mut pool, &g);
    t.zero_grad(&mut pool);
    assert_eq!(detached.grad(&pool), &Some(vec![3, 4]));

    let other = Tensor::new(&mut pool, vec![1u64, 2], vec![2]);
    other.data_mut(&mut pool)[0] = 5;
    assert_eq!(t.data(&pool), &vec![10, 20]);
}

#[test]
fn copies_of_a_name_share_the_gradient() {
    let mut pool = TensorPool::new();
    let t = Tensor::with_grad(&mut pool, vec![1u64], vec![1], true);
    let again = t.clone();
    let g = Tensor::new(&mut pool, vec![6], vec![1]);
    again.accum_grad(&mut pool, &g);
    assert_eq!(t.grad(&pool), &Some(vec![6]));
    t.set_requires_grad(&mut pool, false);
    assert!(!again.requires_grad(&pool));
    assert!(again.grad(&pool).is_none());
}

#[test]
fn test_set_requires_grad_false_clears_grad() {
    let mut pool = TensorPool::new();
    let t = Tensor::with_grad(&mut pool, vec![1u64], vec![1], true);
    let g = Tensor::new(&mut pool, vec![2], vec![1]);
    t.accum_grad(&mut pool, &g);
    t.set_requires_grad(&mut pool, false);
    assert!(!t.requires_grad(&pool));
    assert!(t.grad(&pool).is_none());
}

#[test]
fn test_shape_helpers() {
    let (mut pool, t) = tensor(&[1.0, 2.0, 3.0, 4.0, 5.0, 6.0], vec![2, 3]);
    assert_eq!(t.rank(&pool), 2);
    assert_eq!(t.numel(&pool), 6);
    assert!(!t.is_scalar(&pool));
    let zeros = Tensor::new(&mut pool, bits_of(&[0.0; 6]), vec![2, 3]);
    assert!(t.same_shape(&pool, &zeros));
    let turned = Tensor::new(&mut pool, bits_of(&[0.0; 6]), vec![3, 2]);
    assert!(!t.same_shape(&pool, &turned));
}

#[test]
fn gradients_add_up_where_they_are_wanted() {
    let mut pool = TensorPool::new();
    let t = Tensor::with_grad(&mut pool, vec![1u64, 2], vec![2], true);
    let one = Tensor::new(&mut pool, vec![3, 4], vec![2]);
    let two = Tensor::new(&mut pool, vec![10, 20], vec![2]);
    t.accum_grad(&mut pool, &one);
    t.accum_grad(&mut pool, &two);
    assert_eq!(t.grad(&pool), &Some(vec![13, 24]));
    t.zero_grad(&mut pool);
    assert!(t.grad(&pool).is_none());
    let frozen = Tensor::new(&mut pool, vec![1u64, 2], vec![2]);
    frozen.accum_grad(&mut pool, &one);
    assert!(frozen.grad(&pool).is_none());
}

#[test]
fn unwanted_gradients_may_have_any_shape() {
    let mut pool = TensorPool::new();
    let frozen = Tensor::new(&mut pool, vec![1u64, 2], vec![2]);
    let g = Tensor::new(&mut pool, vec![3, 4, 5], vec![3, 1]);
    frozen.accum_grad(&mut pool, &g);
    assert!(frozen.grad(&pool).is_none());
    assert_eq!(frozen.data(&pool), &vec![1, 2]);
}

#[test]
fn gradients_add_up_as_far_as_both_go() {
    let mut held = Some(vec![1u64, 2, 3]);
    accum_grad(&mut held, &[10, 20]);
    assert_eq!(held, Some(vec![11, 22, 3]));
    accum_grad(&mut held, &[1, 1, 1, 1]);
    assert_eq!(held, Some(vec![12, 23, 4]));
    let mut none: Option<Vec<u64>> = None;
    accum_grad(&mut none, &[5]);
    assert_eq!(none, Some(vec![5]));
}

#[test]
fn views_are_laid_out_anew_on_another_device() {
    let (mut pool, t) = tensor(&[1.0, 2.0, 3.0, 4.0, 5.0, 6.0], vec![3, 2]);
    pool.inners[t.inner].strides = vec![1, 3];
    assert!(!t.is_contiguous(&pool));
    let moved = t.cuda(&mut pool);
    assert_eq!(moved.device(&pool), Device::Cuda(0));
    assert_eq!(floats(&pool, moved), vec![1.0, 4.0, 2.0, 5.0, 3.0, 6.0]);
    assert!(moved.is_contiguous(&pool));
    assert_eq!(moved.strides(&pool), &vec![2, 1]);
    assert_eq!(moved.offset(&pool), 0);
    let back = moved.cpu(&mut pool);
    assert_eq!(back.device(&pool), Device::CPU);
    assert_eq!(t.contiguous_data(&pool), moved.contiguous_data(&pool));
}

/// A buffer of some accelerator, which a test keeps on the host.
#[derive(Debug)]
struct Remote(Vec<u32>);

impl DeviceBuffer<u32> for Remote {
    fn device(&self) -> Device {
        Device::Custom(3)
    }

    fn len(&self) -> usize {
        self.0.len()
    }

    fn to_host(&self) -> Vec<u32> {
        self.0.clone()
    }

    fn from_host(data: &[u32], device: Device) -> Result<Self, String> {
        if device == Device::Custom(3) {
            Ok(Remote(data.to_vec()))
        } else {
            Err("no such device".to_string())
        }
    }
}

#[test]
fn buffers_come_from_the_host() {
    let buffer = Remote::from_host(&[1, 2], Device::Custom(3)).unwrap();
    assert!(!buffer.is_empty());
    assert_eq!(buffer.to_host(), vec![1, 2]);
    assert!(Remote::from_host(&[], Device::Custom(3)).unwrap().is_empty());
    assert!(Remote::from_host(&[1], Device::CPU).is_err());
}

#[test]
fn host_storage_lends_its_elements() {
    let mut storage: Storage<u32, Remote> = Storage::cpu(vec![1, 2, 3]);
    assert!(storage.is_cpu());
    assert!(!storage.is_empty());
    assert_eq!(storage.len(), 3);
    assert_eq!(storage.device(), Device::CPU);
    assert_eq!(storage.as_cpu_slice(), &[1, 2, 3]);
    storage.as_cpu_slice_mut()[0] = 7;
    match storage.try_as_cpu_slice_mut() {
        Ok(elements) => elements[2] = 9,
        Err(e) => panic!("{}", e.message()),
    }
    assert_eq!(storage.try_as_cpu_slice().ok(), Some(&[7, 2, 9][..]));
    assert_eq!(storage.to_cpu_vec(), vec![7, 2, 9]);
}

#[test]
fn device_storage_only_copies_its_elements() {
    let mut storage: Storage<u32, Remote> = Storage::Device(Remote(vec![4, 5]));
    assert!(!storage.is_cpu());
    assert_eq!(storage.len(), 2);
    assert_eq!(storage.device(), Device::Custom(3));
    assert_eq!(storage.to_cpu_vec(), vec![4, 5]);
    let refused = storage.try_as_cpu_slice().err();
    assert_eq!(
        refused.map(|e| e.message()),
        Some(
            "device storage error: cannot borrow device storage as CPU slice; call to_cpu_vec() first"
                .to_string()
        )
    );
    let refused = storage.try_as_cpu_slice_mut().err();
    assert_eq!(
        refused.map(|e| e.message()),
        Some("device storage error: cannot mutably borrow device storage as CPU slice".to_string())
    );
}
