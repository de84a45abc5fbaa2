//! The transformer block over any tensor backend.
//!
//! A backend implements one small trait per operation. The functions here string
//! the operations together: forward passes that keep what the backward pass
//! needs, and backward passes. Each trait names the value of its operation;
//! where a backend is [`Device::exact`] its results have those values.
use crate::attention::{head_of, heads_of, linear_of};
use crate::bitlinear::{dequantised_acts, dequantised_weights, restored_acts, ternary_weights};
use crate::block::{block_of, attended_of};
use crate::ffn::{ffn_of, gated_of};
use crate::float::{deterministic, fcount, fdiv, fone, fsqrt, fsub, Float, ONE};
use crate::layout::{BlockOf, HeadOf};
use crate::ops::{
    causal_mask_grad_of, causal_mask_of, ids_below, mean_loss, rmsnorm_grad_of, rmsnorm_of,
    rope_grad_of, rope_of, silu_grad_of, silu_of, softmax_grad_of, softmax_of,
};
use crate::tensor::{
    add_of, copy_slice, flat, lemma_row_end, lemma_volume2, matmul_of, matrix, mul_of, scale_of,
    transpose_of, volume, Array, Tensor,
};
use vstd::pervasive::{arbitrary, runtime_assert};
use vstd::prelude::*;

verus! {

/// A tensor that lives on some device. Its specification functions have bodies that
/// say nothing, for a device whose operations are not verified.
pub trait Device: Sized {
    /// What the tensor holds, as mathematics sees it.
    type V;

    /// The numbers that leave the device.
    type S: Float;

    /// The value.
    open spec fn val(&self) -> Self::V {
        arbitrary()
    }

    /// The dimensions.
    open spec fn shape(&self) -> Seq<usize> {
        arbitrary()
    }

    /// The invariant.
    open spec fn valid(&self) -> bool {
        arbitrary()
    }

    /// Every operation gives the value that its trait names.
    open spec fn exact() -> bool {
        false
    }

    /// A copy.
    fn duplicate(&self) -> (r: Self)
        requires
            self.valid(),
            volume(self.shape()) <= usize::MAX,
        ensures
            r.valid(),
            r.shape() == self.shape(),
            r.val() == self.val(),
    ;
}

/// A tensor that operations can be applied to.
pub trait Sound {
    /// The invariant holds, and a machine index can count the items.
    spec fn sound(&self) -> bool;
}

impl<T: Device> Sound for T {
    open spec fn sound(&self) -> bool {
        self.valid() && volume(self.shape()) <= usize::MAX
    }
}

/// A matrix of `m` rows and `n` columns.
pub open spec fn is_mat<T: Device>(t: T, m: usize, n: usize) -> bool {
    t.sound() && t.shape() == seq![m, n]
}

/// Matrix product.
pub trait MatMul: Device {
    /// The value of the operation.
    open spec fn matmul_of(a: Self::V, b: Self::V) -> Self::V {
        arbitrary()
    }

    /// The matrix product.
    fn matmul(&self, rhs: &Self) -> (r: Self)
        requires
            self.sound(),
            self.shape().len() == 2,
            rhs.sound(),
            rhs.shape().len() == 2,
            self.shape()[1] == rhs.shape()[0],
            self.shape()[0] * rhs.shape()[1] <= usize::MAX,
        ensures
            r.sound(),
            r.shape() == seq![self.shape()[0], rhs.shape()[1]],
            Self::exact() ==> r.val() == Self::matmul_of(self.val(), rhs.val()),
    ;
}

/// Sum, item by item.
pub trait Add: Device {
    /// The value of the operation.
    open spec fn add_of(a: Self::V, b: Self::V) -> Self::V {
        arbitrary()
    }

    /// The sum, item by item.
    fn add(&self, rhs: &Self) -> (r: Self)
        requires
            self.sound(),
            rhs.sound(),
            rhs.shape() == self.shape(),
        ensures
            r.sound(),
            r.shape() == self.shape(),
            Self::exact() ==> r.val() == Self::add_of(self.val(), rhs.val()),
    ;
}

/// Product with a number.
pub trait MulScalar: Device {
    /// The value of the operation.
    open spec fn mul_scalar_of(a: Self::V, s: Self::S) -> Self::V {
        arbitrary()
    }

    /// Every item multiplied by `s`.
    fn mul_scalar(&self, s: Self::S) -> (r: Self)
        requires
            self.sound(),
        ensures
            r.sound(),
            r.shape() == self.shape(),
            Self::exact() ==> r.val() == Self::mul_scalar_of(self.val(), s),
    ;
}

/// Transpose.
pub trait Transpose2D: Device {
    /// The value of the operation.
    open spec fn transpose_2d_of(a: Self::V) -> Self::V {
        arbitrary()
    }

    /// The transpose of a matrix.
    fn transpose_2d(&self) -> (r: Self)
        requires
            self.sound(),
            self.shape().len() == 2,
        ensures
            r.sound(),
            r.shape() == seq![self.shape()[1], self.shape()[0]],
            Self::exact() ==> r.val() == Self::transpose_2d_of(self.val()),
    ;
}

/// Row-wise softmax.
pub trait Softmax: Device {
    /// The value of the operation.
    open spec fn softmax_of(a: Self::V) -> Self::V {
        arbitrary()
    }

    /// The softmax of every row.
    fn softmax(&self) -> (r: Self)
        requires
            self.sound(),
            self.shape().len() == 2,
        ensures
            r.sound(),
            r.shape() == self.shape(),
            Self::exact() ==> r.val() == Self::softmax_of(self.val()),
    ;
}

/// Causal mask.
pub trait CausalMask: Device {
    /// The value of the operation.
    open spec fn causal_mask_of(a: Self::V) -> Self::V {
        arbitrary()
    }

    /// Negative infinity above the diagonal.
    fn causal_mask(&self) -> (r: Self)
        requires
            self.sound(),
            self.shape().len() == 2,
        ensures
            r.sound(),
            r.shape() == self.shape(),
            Self::exact() ==> r.val() == Self::causal_mask_of(self.val()),
    ;
}

/// Rotary positions.
pub trait Rope: Device {
    /// The value of the operation.
    open spec fn rope_of(a: Self::V) -> Self::V {
        arbitrary()
    }

    /// Each row rotated pair by pair by the angles of its position.
    fn rope(&self) -> (r: Self)
        requires
            self.sound(),
            self.shape().len() == 2,
            self.shape()[1] % 2 == 0,
        ensures
            r.sound(),
            r.shape() == self.shape(),
            Self::exact() ==> r.val() == Self::rope_of(self.val()),
    ;
}

/// The SiLU function.
pub trait Silu: Device {
    /// The value of the operation.
    open spec fn silu_of(a: Self::V) -> Self::V {
        arbitrary()
    }

    /// Every item times its logistic.
    fn silu(&self) -> (r: Self)
        requires
            self.sound(),
        ensures
            r.sound(),
            r.shape() == self.shape(),
            Self::exact() ==> r.val() == Self::silu_of(self.val()),
    ;
}

/// Product, item by item.
pub trait Mul: Device {
    /// The value of the operation.
    open spec fn mul_of(a: Self::V, b: Self::V) -> Self::V {
        arbitrary()
    }

    /// The product, item by item.
    fn mul(&self, rhs: &Self) -> (r: Self)
        requires
            self.sound(),
            rhs.sound(),
            rhs.shape() == self.shape(),
        ensures
            r.sound(),
            r.shape() == self.shape(),
            Self::exact() ==> r.val() == Self::mul_of(self.val(), rhs.val()),
    ;
}

/// Ternary weights.
pub trait QuantiseWeightsSTE: Device {
    /// The value of the operation.
    open spec fn quantise_weights_ste_of(a: Self::V) -> Self::V {
        arbitrary()
    }

    /// Weights quantised to ternary and multiplied back by their scale.
    fn quantise_weights_ste(&self) -> (r: Self)
        requires
            self.sound(),
            self.shape().len() == 2,
        ensures
            r.sound(),
            r.shape() == self.shape(),
            Self::exact() ==> r.val() == Self::quantise_weights_ste_of(self.val()),
    ;
}

/// 8-bit activations.
pub trait QuantiseActsSTE: Device {
    /// The value of the operation.
    open spec fn quantise_acts_ste_of(a: Self::V) -> Self::V {
        arbitrary()
    }

    /// Activations quantised to 8 bits row by row and multiplied back.
    fn quantise_acts_ste(&self) -> (r: Self)
        requires
            self.sound(),
            self.shape().len() == 2,
        ensures
            r.sound(),
            r.shape() == self.shape(),
            Self::exact() ==> r.val() == Self::quantise_acts_ste_of(self.val()),
    ;
}

/// The quantised matrix product.
pub trait BitLinear: Device {
    /// The value of the operation.
    open spec fn bit_linear_of(a: Self::V, b: Self::V) -> Self::V {
        arbitrary()
    }

    /// The product of 8-bit activations and ternary weights.
    fn bit_linear(&self, rhs: &Self) -> (r: Self)
        requires
            self.sound(),
            self.shape().len() == 2,
            rhs.sound(),
            rhs.shape().len() == 2,
            self.shape()[1] == rhs.shape()[0],
            self.shape()[0] * rhs.shape()[1] <= usize::MAX,
        ensures
            r.sound(),
            r.shape() == seq![self.shape()[0], rhs.shape()[1]],
            Self::exact() ==> r.val() == Self::bit_linear_of(self.val(), rhs.val()),
    ;
}

/// Row-wise normalisation.
pub trait RmsNorm: Device {
    /// The value of the operation.
    open spec fn rmsnorm_of(a: Self::V) -> Self::V {
        arbitrary()
    }

    /// Every row divided by its root mean square.
    fn rmsnorm(&self) -> (r: Self)
        requires
            self.sound(),
            self.shape().len() == 2,
        ensures
            r.sound(),
            r.shape() == self.shape(),
            Self::exact() ==> r.val() == Self::rmsnorm_of(self.val()),
    ;
}

/// Gradient of the SiLU function.
pub trait SiluBackward: Device {
    /// The value of the operation.
    open spec fn silu_backward_of(a: Self::V, b: Self::V) -> Self::V {
        arbitrary()
    }

    /// The gradient at input `x`; `self` is the incoming gradient.
    fn silu_backward(&self, x: &Self) -> (r: Self)
        requires
            self.sound(),
            x.sound(),
            x.shape() == self.shape(),
        ensures
            r.sound(),
            r.shape() == self.shape(),
            Self::exact() ==> r.val() == Self::silu_backward_of(self.val(), x.val()),
    ;
}

/// Gradient of the row-wise softmax.
pub trait SoftmaxBackward: Device {
    /// The value of the operation.
    open spec fn softmax_backward_of(a: Self::V, b: Self::V) -> Self::V {
        arbitrary()
    }

    /// The gradient for output `s_out`; `self` is the incoming gradient.
    fn softmax_backward(&self, s_out: &Self) -> (r: Self)
        requires
            self.sound(),
            self.shape().len() == 2,
            s_out.sound(),
            s_out.shape() == self.shape(),
        ensures
            r.sound(),
            r.shape() == self.shape(),
            Self::exact() ==> r.val() == Self::softmax_backward_of(self.val(), s_out.val()),
    ;
}

/// Gradient of the causal mask.
pub trait CausalMaskBackward: Device {
    /// The value of the operation.
    open spec fn causal_mask_backward_of(a: Self::V) -> Self::V {
        arbitrary()
    }

    /// The incoming gradient with zeros above the diagonal.
    fn causal_mask_backward(&self) -> (r: Self)
        requires
            self.sound(),
            self.shape().len() == 2,
        ensures
            r.sound(),
            r.shape() == self.shape(),
            Self::exact() ==> r.val() == Self::causal_mask_backward_of(self.val()),
    ;
}

/// Gradient of the row-wise normalisation.
pub trait RmsNormBackward: Device {
    /// The value of the operation.
    open spec fn rmsnorm_backward_of(a: Self::V, b: Self::V) -> Self::V {
        arbitrary()
    }

    /// The gradient at input `x_saved`; `self` is the incoming gradient.
    fn rmsnorm_backward(&self, x_saved: &Self) -> (r: Self)
        requires
            self.sound(),
            self.shape().len() == 2,
            x_saved.sound(),
            x_saved.shape() == self.shape(),
        ensures
            r.sound(),
            r.shape() == self.shape(),
            Self::exact() ==> r.val() == Self::rmsnorm_backward_of(self.val(), x_saved.val()),
    ;
}

/// Gradient of the rotation.
pub trait RopeBackward: Device {
    /// The value of the operation.
    open spec fn rope_backward_of(a: Self::V) -> Self::V {
        arbitrary()
    }

    /// Each row of the incoming gradient rotated back.
    fn rope_backward(&self) -> (r: Self)
        requires
            self.sound(),
            self.shape().len() == 2,
            self.shape()[1] % 2 == 0,
        ensures
            r.sound(),
            r.shape() == self.shape(),
            Self::exact() ==> r.val() == Self::rope_backward_of(self.val()),
    ;
}

/// Cross-entropy over the rows of a matrix of logits.
pub trait CrossEntropy: Device {
    /// The mean loss.
    open spec fn loss_of(a: Self::V, targets: Seq<usize>) -> Self::S {
        arbitrary()
    }

    /// The probabilities that the backward pass needs.
    open spec fn probs_of(a: Self::V) -> Self::V {
        arbitrary()
    }

    /// The mean loss over the rows, and the probabilities.
    fn cross_entropy_forward_save(&self, targets: &[usize]) -> (r: (Self::S, Self))
        requires
            self.sound(),
            self.shape().len() == 2,
            targets@.len() == self.shape()[0],
            ids_below(targets@, self.shape()[1]),
        ensures
            r.1.sound(),
            r.1.shape() == self.shape(),
            Self::exact() ==> r.0 == Self::loss_of(self.val(), targets@) && r.1.val()
                == Self::probs_of(self.val()),
    ;
}

/// Gradient of cross-entropy.
pub trait CrossEntropyBackward: Device {
    /// The value of the gradient.
    open spec fn cross_entropy_backward_of(a: Self::V, targets: Seq<usize>, seq: usize) -> Self::V {
        arbitrary()
    }

    /// The gradient of the mean loss for the probabilities `self`.
    fn cross_entropy_backward(&self, targets: &[usize], seq: usize) -> (r: Self)
        requires
            self.sound(),
            self.shape().len() == 2,
            seq == self.shape()[0],
            targets@.len() == seq,
            ids_below(targets@, self.shape()[1]),
        ensures
            r.sound(),
            r.shape() == self.shape(),
            Self::exact() ==> r.val() == Self::cross_entropy_backward_of(self.val(), targets@, seq),
    ;
}

/// The values and the scores' factor are all determined.
pub open spec fn settled<T: Device>() -> bool {
    T::exact() && deterministic::<T::S>()
}

/// The factor put on the scores of a head.
pub open spec fn head_scale<S: Float>(head_dim: usize) -> S {
    fdiv(fone::<S>(), fsqrt(fcount::<S>(head_dim)))
}

/// The factor put on the scores of a head.
fn scale_for<S: Float>(head_dim: usize) -> (r: S)
    ensures
        deterministic::<S>() ==> r == head_scale::<S>(head_dim),
{
    S::from_bits(ONE).over(S::from_count(head_dim).sqrt())
}

/// A matrix and its dimensions' product.
proof fn lemma_mat<T: Device>(t: T, m: usize, n: usize)
    requires
        is_mat(t, m, n),
    ensures
        m * n <= usize::MAX,
        n * m <= usize::MAX,
{
    lemma_volume2(t.shape());
    assert(m * n == n * m) by (nonlinear_arith);
}

/// The product of three matrices, from the left.
pub fn chained_matmul<T: MatMul>(a: &T, b: &T, c: &T) -> (r: T)
    requires
        a.sound() && b.sound() && c.sound(),
        a.shape().len() == 2 && b.shape().len() == 2 && c.shape().len() == 2,
        a.shape()[1] == b.shape()[0] && b.shape()[1] == c.shape()[0],
        a.shape()[0] * b.shape()[1] <= usize::MAX,
        a.shape()[0] * c.shape()[1] <= usize::MAX,
    ensures
        is_mat(r, a.shape()[0], c.shape()[1]),
        T::exact() ==> r.val() == T::matmul_of(T::matmul_of(a.val(), b.val()), c.val()),
{
    a.matmul(b).matmul(c)
}

/// The gradients of both factors of a matrix product.
pub fn matmul_backward<T: MatMul + Transpose2D>(grad_c: &T, a: &T, b: &T) -> (r: (T, T))
    requires
        grad_c.sound() && a.sound() && b.sound(),
        a.shape().len() == 2 && b.shape().len() == 2,
        a.shape()[1] == b.shape()[0],
        grad_c.shape() == seq![a.shape()[0], b.shape()[1]],
    ensures
        r.0.sound() && r.0.shape() == a.shape(),
        r.1.sound() && r.1.shape() == b.shape(),
        T::exact() ==> r.0.val() == T::matmul_of(grad_c.val(), T::transpose_2d_of(b.val())),
        T::exact() ==> r.1.val() == T::matmul_of(T::transpose_2d_of(a.val()), grad_c.val()),
{
    proof {
        assert(a.shape() =~= seq![a.shape()[0], a.shape()[1]]);
        assert(b.shape() =~= seq![b.shape()[0], b.shape()[1]]);
        lemma_mat(*a, a.shape()[0], a.shape()[1]);
        lemma_mat(*b, b.shape()[0], b.shape()[1]);
    }
    let grad_a = grad_c.matmul(&b.transpose_2d());
    let grad_b = a.transpose_2d().matmul(grad_c);
    proof {
        assert(grad_a.shape() =~= a.shape());
        assert(grad_b.shape() =~= b.shape());
    }
    (grad_a, grad_b)
}

/// The gradients of both terms of a sum: the incoming gradient twice.
pub fn add_backward<T: Device>(grad_c: &T) -> (r: (T, T))
    requires
        grad_c.sound(),
    ensures
        r.0.sound() && r.0.shape() == grad_c.shape() && r.0.val() == grad_c.val(),
        r.1.sound() && r.1.shape() == grad_c.shape() && r.1.val() == grad_c.val(),
{
    (grad_c.duplicate(), grad_c.duplicate())
}

/// The gradients of both factors of an item-by-item product.
pub fn mul_backward<T: Mul>(grad_c: &T, a: &T, b: &T) -> (r: (T, T))
    requires
        grad_c.sound() && a.sound() && b.sound(),
        a.shape() == grad_c.shape() && b.shape() == grad_c.shape(),
    ensures
        r.0.sound() && r.0.shape() == grad_c.shape(),
        r.1.sound() && r.1.shape() == grad_c.shape(),
        T::exact() ==> r.0.val() == T::mul_of(grad_c.val(), b.val()),
        T::exact() ==> r.1.val() == T::mul_of(grad_c.val(), a.val()),
{
    let grad_a = grad_c.mul(b);
    let grad_b = grad_c.mul(a);
    (grad_a, grad_b)
}

/// The gradient of a product with a number.
pub fn mul_scalar_backward<T: MulScalar>(grad_c: &T, s: T::S) -> (r: T)
    requires
        grad_c.sound(),
    ensures
        r.sound() && r.shape() == grad_c.shape(),
        T::exact() ==> r.val() == T::mul_scalar_of(grad_c.val(), s),
{
    grad_c.mul_scalar(s)
}

/// The gradient of the SiLU function at `x`.
pub fn silu_backward<T: SiluBackward>(grad_y: &T, x: &T) -> (r: T)
    requires
        grad_y.sound(),
        x.sound(),
        x.shape() == grad_y.shape(),
    ensures
        r.sound() && r.shape() == grad_y.shape(),
        T::exact() ==> r.val() == T::silu_backward_of(grad_y.val(), x.val()),
{
    grad_y.silu_backward(x)
}

/// The gradient of the row-wise softmax with output `s_out`.
pub fn softmax_backward<T: SoftmaxBackward>(grad_y: &T, s_out: &T) -> (r: T)
    requires
        grad_y.sound(),
        grad_y.shape().len() == 2,
        s_out.sound(),
        s_out.shape() == grad_y.shape(),
    ensures
        r.sound() && r.shape() == grad_y.shape(),
        T::exact() ==> r.val() == T::softmax_backward_of(grad_y.val(), s_out.val()),
{
    grad_y.softmax_backward(s_out)
}

/// The gradient of the causal mask.
pub fn causal_mask_backward<T: CausalMaskBackward>(grad_y: &T) -> (r: T)
    requires
        grad_y.sound(),
        grad_y.shape().len() == 2,
    ensures
        r.sound() && r.shape() == grad_y.shape(),
        T::exact() ==> r.val() == T::causal_mask_backward_of(grad_y.val()),
{
    grad_y.causal_mask_backward()
}

/// The gradient of the row-wise normalisation at `x_saved`.
pub fn rmsnorm_backward<T: RmsNormBackward>(grad_y: &T, x_saved: &T) -> (r: T)
    requires
        grad_y.sound(),
        grad_y.shape().len() == 2,
        x_saved.sound(),
        x_saved.shape() == grad_y.shape(),
    ensures
        r.sound() && r.shape() == grad_y.shape(),
        T::exact() ==> r.val() == T::rmsnorm_backward_of(grad_y.val(), x_saved.val()),
{
    grad_y.rmsnorm_backward(x_saved)
}

/// The gradient of the rotation.
pub fn rope_backward<T: RopeBackward>(grad_y: &T) -> (r: T)
    requires
        grad_y.sound(),
        grad_y.shape().len() == 2,
        grad_y.shape()[1] % 2 == 0,
    ensures
        r.sound() && r.shape() == grad_y.shape(),
        T::exact() ==> r.val() == T::rope_backward_of(grad_y.val()),
{
    grad_y.rope_backward()
}

/// The mean loss over the rows, and the probabilities.
pub fn cross_entropy_forward_save<T: CrossEntropy>(logits: &T, targets: &[usize]) -> (r: (T::S, T))
    requires
        logits.sound(),
        logits.shape().len() == 2,
        targets@.len() == logits.shape()[0],
        ids_below(targets@, logits.shape()[1]),
    ensures
        r.1.sound(),
        r.1.shape() == logits.shape(),
        T::exact() ==> r.0 == T::loss_of(logits.val(), targets@) && r.1.val() == T::probs_of(
            logits.val(),
        ),
{
    logits.cross_entropy_forward_save(targets)
}

/// The gradient of the mean loss.
pub fn cross_entropy_backward<T: CrossEntropyBackward>(
    softmax_saved: &T,
    targets: &[usize],
    seq: usize,
) -> (r: T)
    requires
        softmax_saved.sound(),
        softmax_saved.shape().len() == 2,
        seq == softmax_saved.shape()[0],
        targets@.len() == seq,
        ids_below(targets@, softmax_saved.shape()[1]),
    ensures
        r.sound(),
        r.shape() == softmax_saved.shape(),
        T::exact() ==> r.val() == T::cross_entropy_backward_of(
            softmax_saved.val(),
            targets@,
            seq,
        ),
{
    softmax_saved.cross_entropy_backward(targets, seq)
}

/// The product of 8-bit activations and ternary weights.
pub fn bit_linear<T: BitLinear>(x: &T, w: &T) -> (r: T)
    requires
        x.sound() && w.sound(),
        x.shape().len() == 2 && w.shape().len() == 2,
        x.shape()[1] == w.shape()[0],
        x.shape()[0] * w.shape()[1] <= usize::MAX,
    ensures
        is_mat(r, x.shape()[0], w.shape()[1]),
        T::exact() ==> r.val() == T::bit_linear_of(x.val(), w.val()),
{
    x.bit_linear(w)
}

/// The gradients of both factors of a quantised product: those of the plain
/// product of the quantised factors, passed straight through the quantisers.
pub fn bit_linear_backward<T: MatMul + Transpose2D + QuantiseActsSTE + QuantiseWeightsSTE>(
    grad_y: &T,
    x: &T,
    w: &T,
) -> (r: (T, T))
    requires
        grad_y.sound() && x.sound() && w.sound(),
        x.shape().len() == 2 && w.shape().len() == 2,
        x.shape()[1] == w.shape()[0],
        grad_y.shape() == seq![x.shape()[0], w.shape()[1]],
    ensures
        r.0.sound() && r.0.shape() == x.shape(),
        r.1.sound() && r.1.shape() == w.shape(),
        T::exact() ==> r.0.val() == T::matmul_of(
            grad_y.val(),
            T::transpose_2d_of(T::quantise_weights_ste_of(w.val())),
        ),
        T::exact() ==> r.1.val() == T::matmul_of(
            T::transpose_2d_of(T::quantise_acts_ste_of(x.val())),
            grad_y.val(),
        ),
{
    let x_eff = x.quantise_acts_ste();
    let w_eff = w.quantise_weights_ste();
    matmul_backward(grad_y, &x_eff, &w_eff)
}

impl<T: Float> Device for Tensor<T> {
    type V = Array<T>;

    type S = T;

    open spec fn val(&self) -> Array<T> {
        self@
    }

    open spec fn shape(&self) -> Seq<usize> {
        self.shape@
    }

    open spec fn valid(&self) -> bool {
        self.wf()
    }

    open spec fn exact() -> bool {
        deterministic::<T>()
    }

    fn duplicate(&self) -> (r: Self) {
        self.clone()
    }
}

impl<T: Float> MatMul for Tensor<T> {
    open spec fn matmul_of(a: Array<T>, b: Array<T>) -> Array<T> {
        crate::tensor::matmul_of(a, b)
    }

    fn matmul(&self, rhs: &Self) -> (r: Self) {
        let r = Tensor::matmul(self, rhs);
        proof {
            assert(r.data@.len() == r.data.len());
        }
        r
    }
}

impl<T: Float> Add for Tensor<T> {
    open spec fn add_of(a: Array<T>, b: Array<T>) -> Array<T> {
        crate::tensor::add_of(a, b)
    }

    fn add(&self, rhs: &Self) -> (r: Self) {
        Tensor::add(self, rhs)
    }
}

impl<T: Float> MulScalar for Tensor<T> {
    open spec fn mul_scalar_of(a: Array<T>, s: T) -> Array<T> {
        scale_of(a, s)
    }

    fn mul_scalar(&self, s: T) -> (r: Self) {
        Tensor::mul_scalar(self, s)
    }
}

impl<T: Float> Transpose2D for Tensor<T> {
    open spec fn transpose_2d_of(a: Array<T>) -> Array<T> {
        transpose_of(a)
    }

    fn transpose_2d(&self) -> (r: Self) {
        let r = Tensor::transpose_2d(self);
        proof {
            assert(r.data@.len() == r.data.len());
        }
        r
    }
}

impl<T: Float> Softmax for Tensor<T> {
    open spec fn softmax_of(a: Array<T>) -> Array<T> {
        crate::ops::softmax_of(a)
    }

    fn softmax(&self) -> (r: Self) {
        Tensor::softmax(self)
    }
}

impl<T: Float> CausalMask for Tensor<T> {
    open spec fn causal_mask_of(a: Array<T>) -> Array<T> {
        crate::ops::causal_mask_of(a)
    }

    fn causal_mask(&self) -> (r: Self) {
        Tensor::causal_mask(self)
    }
}

impl<T: Float> Rope for Tensor<T> {
    open spec fn rope_of(a: Array<T>) -> Array<T> {
        crate::ops::rope_of(a)
    }

    fn rope(&self) -> (r: Self) {
        Tensor::rope(self)
    }
}

impl<T: Float> Silu for Tensor<T> {
    open spec fn silu_of(a: Array<T>) -> Array<T> {
        crate::ops::silu_of(a)
    }

    fn silu(&self) -> (r: Self) {
        Tensor::silu(self)
    }
}

impl<T: Float> Mul for Tensor<T> {
    open spec fn mul_of(a: Array<T>, b: Array<T>) -> Array<T> {
        crate::tensor::mul_of(a, b)
    }

    fn mul(&self, rhs: &Self) -> (r: Self) {
        Tensor::mul(self, rhs)
    }
}

impl<T: Float> QuantiseWeightsSTE for Tensor<T> {
    open spec fn quantise_weights_ste_of(a: Array<T>) -> Array<T> {
        ternary_weights(a)
    }

    fn quantise_weights_ste(&self) -> (r: Self) {
        dequantised_weights(self)
    }
}

impl<T: Float> QuantiseActsSTE for Tensor<T> {
    open spec fn quantise_acts_ste_of(a: Array<T>) -> Array<T> {
        restored_acts(a)
    }

    fn quantise_acts_ste(&self) -> (r: Self) {
        dequantised_acts(self)
    }
}

impl<T: Float> BitLinear for Tensor<T> {
    open spec fn bit_linear_of(a: Array<T>, b: Array<T>) -> Array<T> {
        linear_of(restored_acts(a), b)
    }

    fn bit_linear(&self, rhs: &Self) -> (r: Self) {
        let x = dequantised_acts(self);
        let w = dequantised_weights(rhs);
        let r = Tensor::matmul(&x, &w);
        proof {
            assert(r.data@.len() == r.data.len());
        }
        r
    }
}

impl<T: Float> RmsNorm for Tensor<T> {
    open spec fn rmsnorm_of(a: Array<T>) -> Array<T> {
        crate::ops::rmsnorm_of(a)
    }

    fn rmsnorm(&self) -> (r: Self) {
        Tensor::rmsnorm(self)
    }
}

impl<T: Float> SiluBackward for Tensor<T> {
    open spec fn silu_backward_of(a: Array<T>, b: Array<T>) -> Array<T> {
        silu_grad_of(a, b)
    }

    fn silu_backward(&self, x: &Self) -> (r: Self) {
        self.silu_grad(x)
    }
}

impl<T: Float> SoftmaxBackward for Tensor<T> {
    open spec fn softmax_backward_of(a: Array<T>, b: Array<T>) -> Array<T> {
        softmax_grad_of(a, b)
    }

    fn softmax_backward(&self, s_out: &Self) -> (r: Self) {
        self.softmax_grad(s_out)
    }
}

impl<T: Float> CausalMaskBackward for Tensor<T> {
    open spec fn causal_mask_backward_of(a: Array<T>) -> Array<T> {
        causal_mask_grad_of(a)
    }

    fn causal_mask_backward(&self) -> (r: Self) {
        self.causal_mask_grad()
    }
}

impl<T: Float> RmsNormBackward for Tensor<T> {
    open spec fn rmsnorm_backward_of(a: Array<T>, b: Array<T>) -> Array<T> {
        rmsnorm_grad_of(a, b)
    }

    fn rmsnorm_backward(&self, x_saved: &Self) -> (r: Self) {
        self.rmsnorm_grad(x_saved)
    }
}

impl<T: Float> RopeBackward for Tensor<T> {
    open spec fn rope_backward_of(a: Array<T>) -> Array<T> {
        rope_grad_of(a)
    }

    fn rope_backward(&self) -> (r: Self) {
        self.rope_grad()
    }
}

impl<T: Float> CrossEntropy for Tensor<T> {
    open spec fn loss_of(a: Array<T>, targets: Seq<usize>) -> T {
        mean_loss(a, targets)
    }

    open spec fn probs_of(a: Array<T>) -> Array<T> {
        crate::ops::softmax_of(a)
    }

    fn cross_entropy_forward_save(&self, targets: &[usize]) -> (r: (T, Self)) {
        let loss = self.loss(targets);
        (loss, Tensor::softmax(self))
    }
}

/// A row of probabilities with one taken off at the target, divided by the number of rows.
pub open spec fn mean_grad_row<T: Float>(s: Seq<T>, t: usize, n: usize) -> Seq<T> {
    Seq::new(
        s.len(),
        |j: int|
            fdiv(
                if j == t {
                    fsub(s[j], fone::<T>())
                } else {
                    s[j]
                },
                fcount::<T>(n),
            ),
    )
}

/// The mean loss gradient of every row.
pub open spec fn mean_grad_rows<T: Float>(
    a: Array<T>,
    targets: Seq<usize>,
    n: usize,
) -> spec_fn(nat) -> Seq<T> {
    |i: nat| mean_grad_row(a.row(i), targets[i as int], n)
}

/// A row of probabilities with one taken off at the target, divided by the number of rows.
fn mean_grad_line<T: Float>(s: &[T], t: usize, n: usize) -> (r: Vec<T>)
    ensures
        r@.len() == s@.len(),
        deterministic::<T>() ==> r@ == mean_grad_row(s@, t, n),
{
    let one = T::from_bits(ONE);
    let count = T::from_count(n);
    let mut out: Vec<T> = Vec::new();
    let mut j: usize = 0;
    while j < s.len()
        invariant
            j <= s.len(),
            out.len() == j,
            deterministic::<T>() ==> one == fone::<T>() && count == fcount::<T>(n),
            deterministic::<T>() ==> forall|k: int|
                0 <= k < j ==> out@[k] == mean_grad_row(s@, t, n)[k],
        decreases s.len() - j,
    {
        if j == t {
            out.push(s[j].minus(one).over(count));
        } else {
            out.push(s[j].over(count));
        }
        j += 1;
    }
    proof {
        if deterministic::<T>() {
            assert(out@ =~= mean_grad_row(s@, t, n));
        }
    }
    out
}

impl<T: Float> CrossEntropyBackward for Tensor<T> {
    open spec fn cross_entropy_backward_of(
        a: Array<T>,
        targets: Seq<usize>,
        seq: usize,
    ) -> Array<T> {
        matrix(a.dims[0], a.dims[1], mean_grad_rows(a, targets, seq))
    }

    fn cross_entropy_backward(&self, targets: &[usize], seq: usize) -> (r: Self) {
        let n: usize = self.shape[1];
        let ghost rows = mean_grad_rows(self@, targets@, seq);
        let mut out: Vec<T> = Vec::new();
        let mut i: usize = 0;
        proof {
            lemma_volume2(self.shape@);
        }
        while i < seq
            invariant
                i <= seq,
                self.wf(),
                self.shape@.len() == 2,
                seq == self.shape@[0],
                n == self.shape@[1],
                targets@.len() == seq,
                rows == mean_grad_rows(self@, targets@, seq),
                out.len() == i * n,
                deterministic::<T>() ==> out@ == flat(i as nat, rows),
            decreases seq - i,
        {
            proof {
                lemma_row_end(i as int, seq as int, n as int);
            }
            let mut line = mean_grad_line(self.row(i), targets[i], seq);
            proof {
                if deterministic::<T>() {
                    assert(line@ == rows(i as nat));
                }
            }
            out.append(&mut line);
            i += 1;
        }
        let r = Tensor { data: out, shape: copy_slice(self.shape.as_slice()) };
        proof {
            if deterministic::<T>() {
                assert(r@ =~= matrix(self@.dims[0], self@.dims[1], rows));
            }
        }
        r
    }
}

/// The weights of an attention head.
pub struct HeadWeights<T> {
    pub w_q: T,
    pub w_k: T,
    pub w_v: T,
    pub w_o: T,
}

/// The weights of a feed-forward layer.
pub struct FfnWeights<T> {
    pub w_gate: T,
    pub w_up: T,
    pub w_down: T,
}

/// What the backward pass of an attention head needs of its forward pass.
pub struct AttentionHeadSaved<T> {
    pub q: T,
    pub k: T,
    pub v: T,
    pub attn: T,
    pub ctx: T,
}

/// The gradients of an attention head.
pub struct AttentionHeadGrads<T> {
    pub grad_x: T,
    pub grad_w_q: T,
    pub grad_w_k: T,
    pub grad_w_v: T,
    pub grad_w_o: T,
}

/// What the backward pass of a feed-forward layer needs of its forward pass.
pub struct FfnSaved<T> {
    pub gate_pre: T,
    pub gate: T,
    pub up: T,
    pub h: T,
}

/// The gradients of a feed-forward layer.
pub struct FfnGrads<T> {
    pub grad_x: T,
    pub grad_w_gate: T,
    pub grad_w_up: T,
    pub grad_w_down: T,
}

/// The gradients of the weights of an attention head.
pub struct HeadWeightGrads<T> {
    pub grad_w_q: T,
    pub grad_w_k: T,
    pub grad_w_v: T,
    pub grad_w_o: T,
}

/// What the backward pass of a block needs of its forward pass.
pub struct BlockSaved<T> {
    pub y1_pre: T,
    pub x1: T,
    pub y2_pre: T,
    pub head_saveds: Vec<AttentionHeadSaved<T>>,
    pub ffn_saved: FfnSaved<T>,
}

/// The gradients of a block.
pub struct BlockGrads<T> {
    pub grad_x: T,
    pub head_grads: Vec<HeadWeightGrads<T>>,
    pub grad_w_gate: T,
    pub grad_w_up: T,
    pub grad_w_down: T,
}

/// The values of a head's weights.
pub open spec fn head_val<T: Device>(w: HeadWeights<T>) -> HeadWeights<T::V> {
    HeadWeights { w_q: w.w_q.val(), w_k: w.w_k.val(), w_v: w.w_v.val(), w_o: w.w_o.val() }
}

/// The values of some heads' weights.
pub open spec fn heads_val<T: Device>(hs: Seq<HeadWeights<T>>) -> Seq<HeadWeights<T::V>> {
    Seq::new(hs.len(), |i: int| head_val(hs[i]))
}

/// The values of a feed-forward layer's weights.
pub open spec fn ffn_val<T: Device>(w: FfnWeights<T>) -> FfnWeights<T::V> {
    FfnWeights { w_gate: w.w_gate.val(), w_up: w.w_up.val(), w_down: w.w_down.val() }
}

/// The values that a head saved.
pub open spec fn saved_val<T: Device>(s: AttentionHeadSaved<T>) -> AttentionHeadSaved<T::V> {
    AttentionHeadSaved {
        q: s.q.val(),
        k: s.k.val(),
        v: s.v.val(),
        attn: s.attn.val(),
        ctx: s.ctx.val(),
    }
}

/// The values of a head's gradients.
pub open spec fn head_grads_val<T: Device>(g: AttentionHeadGrads<T>) -> AttentionHeadGrads<T::V> {
    AttentionHeadGrads {
        grad_x: g.grad_x.val(),
        grad_w_q: g.grad_w_q.val(),
        grad_w_k: g.grad_w_k.val(),
        grad_w_v: g.grad_w_v.val(),
        grad_w_o: g.grad_w_o.val(),
    }
}

/// The values of the gradients of a head's weights.
pub open spec fn weight_grads_val<T: Device>(g: HeadWeightGrads<T>) -> HeadWeightGrads<T::V> {
    HeadWeightGrads {
        grad_w_q: g.grad_w_q.val(),
        grad_w_k: g.grad_w_k.val(),
        grad_w_v: g.grad_w_v.val(),
        grad_w_o: g.grad_w_o.val(),
    }
}

/// The values that a feed-forward layer saved.
pub open spec fn ffn_saved_val<T: Device>(s: FfnSaved<T>) -> FfnSaved<T::V> {
    FfnSaved { gate_pre: s.gate_pre.val(), gate: s.gate.val(), up: s.up.val(), h: s.h.val() }
}

/// The values of a feed-forward layer's gradients.
pub open spec fn ffn_grads_val<T: Device>(g: FfnGrads<T>) -> FfnGrads<T::V> {
    FfnGrads {
        grad_x: g.grad_x.val(),
        grad_w_gate: g.grad_w_gate.val(),
        grad_w_up: g.grad_w_up.val(),
        grad_w_down: g.grad_w_down.val(),
    }
}

/// The projections of a head fit activations of `s` rows and `n` columns.
pub open spec fn head_weights_fit<T: Device>(w_q: T, w_k: T, w_v: T, w_o: T, s: usize, n: usize) -> bool {
    let (q, k, v, o) = (w_q.shape(), w_k.shape(), w_v.shape(), w_o.shape());
    &&& w_q.sound() && w_k.sound() && w_v.sound() && w_o.sound()
    &&& q.len() == 2 && k.len() == 2 && v.len() == 2 && o.len() == 2
    &&& q[0] == n && k[0] == n && v[0] == n
    &&& q[1] == k[1] && q[1] % 2 == 0
    &&& o[0] == v[1]
    &&& s * q[1] <= usize::MAX && s * v[1] <= usize::MAX && s * o[1] <= usize::MAX && s * s
        <= usize::MAX
}

/// What a head saved has the shapes of `s` rows, `d` key columns and `dv` value columns.
pub open spec fn saved_fits<T: Device>(
    sv: AttentionHeadSaved<T>,
    s: usize,
    d: usize,
    dv: usize,
) -> bool {
    &&& is_mat(sv.q, s, d) && is_mat(sv.k, s, d)
    &&& is_mat(sv.v, s, dv) && is_mat(sv.attn, s, s)
    &&& is_mat(sv.ctx, s, dv)
}

/// The attention weights of rotated queries and keys.
pub open spec fn attn_of<T: MatMul + MulScalar + Transpose2D + Softmax + CausalMask>(
    q: T::V,
    k: T::V,
    scale: T::S,
) -> T::V {
    T::softmax_of(
        T::causal_mask_of(T::mul_scalar_of(T::matmul_of(q, T::transpose_2d_of(k)), scale)),
    )
}

/// What a head saves of its rotated queries and keys and its values.
pub open spec fn saved_of<T: MatMul + MulScalar + Transpose2D + Softmax + CausalMask>(
    q: T::V,
    k: T::V,
    v: T::V,
    scale: T::S,
) -> AttentionHeadSaved<T::V> {
    let attn = attn_of::<T>(q, k, scale);
    AttentionHeadSaved { q, k, v, attn, ctx: T::matmul_of(attn, v) }
}

/// The attention weights of rotated queries and keys, and the values they mix.
fn attend<T: MatMul + MulScalar + Transpose2D + Softmax + CausalMask>(
    q: T,
    k: T,
    v: T,
    head_dim: usize,
) -> (r: AttentionHeadSaved<T>)
    requires
        q.sound() && k.sound() && v.sound(),
        q.shape().len() == 2 && k.shape() == q.shape() && v.shape().len() == 2,
        v.shape()[0] == q.shape()[0],
        q.shape()[0] * q.shape()[0] <= usize::MAX,
    ensures
        r.q == q && r.k == k && r.v == v,
        is_mat(r.attn, q.shape()[0], q.shape()[0]),
        is_mat(r.ctx, q.shape()[0], v.shape()[1]),
        settled::<T>() ==> saved_val(r) == saved_of::<T>(
            q.val(),
            k.val(),
            v.val(),
            head_scale(head_dim),
        ),
{
    proof {
        assert(v.shape() =~= seq![v.shape()[0], v.shape()[1]]);
        lemma_mat(v, v.shape()[0], v.shape()[1]);
    }
    let scale: T::S = scale_for(head_dim);
    let scores = q.matmul(&k.transpose_2d()).mul_scalar(scale).causal_mask();
    let attn = scores.softmax();
    let ctx = attn.matmul(&v);
    AttentionHeadSaved { q, k, v, attn, ctx }
}

/// The gradients that flow from the mixed values back to the queries and keys
/// before their rotation and to the values.
pub open spec fn attend_grads_of<T: MatMul + MulScalar + Transpose2D + SoftmaxBackward + CausalMaskBackward + RopeBackward>(
    grad_ctx: T::V,
    sv: AttentionHeadSaved<T::V>,
    scale: T::S,
) -> (T::V, T::V, T::V) {
    let grad_attn = T::matmul_of(grad_ctx, T::transpose_2d_of(sv.v));
    let grad_v = T::matmul_of(T::transpose_2d_of(sv.attn), grad_ctx);
    let grad_raw = T::mul_scalar_of(
        T::causal_mask_backward_of(T::softmax_backward_of(grad_attn, sv.attn)),
        scale,
    );
    let kt = T::transpose_2d_of(sv.k);
    let grad_q = T::matmul_of(grad_raw, T::transpose_2d_of(kt));
    let grad_k = T::transpose_2d_of(T::matmul_of(T::transpose_2d_of(sv.q), grad_raw));
    (T::rope_backward_of(grad_q), T::rope_backward_of(grad_k), grad_v)
}

/// The gradients that flow from the mixed values back to the queries and keys
/// before their rotation and to the values.
fn attend_backward<T: MatMul + MulScalar + Transpose2D + SoftmaxBackward + CausalMaskBackward + RopeBackward>(
    grad_ctx: &T,
    saved: &AttentionHeadSaved<T>,
    head_dim: usize,
) -> (r: (T, T, T))
    requires
        saved.q.shape().len() == 2,
        saved.v.shape().len() == 2,
        saved_fits(*saved, saved.q.shape()[0], saved.q.shape()[1], saved.v.shape()[1]),
        saved.q.shape()[1] % 2 == 0,
        is_mat(*grad_ctx, saved.q.shape()[0], saved.v.shape()[1]),
    ensures
        r.0.sound() && r.0.shape() == saved.q.shape(),
        r.1.sound() && r.1.shape() == saved.q.shape(),
        r.2.sound() && r.2.shape() == saved.v.shape(),
        settled::<T>() ==> (r.0.val(), r.1.val(), r.2.val()) == attend_grads_of::<T>(
            grad_ctx.val(),
            saved_val(*saved),
            head_scale(head_dim),
        ),
{
    let (grad_attn, grad_v) = matmul_backward(grad_ctx, &saved.attn, &saved.v);
    let grad_msk = softmax_backward(&grad_attn, &saved.attn);
    let grad_scl = causal_mask_backward(&grad_msk);
    let scale: T::S = scale_for(head_dim);
    let grad_raw = mul_scalar_backward(&grad_scl, scale);
    let kt = saved.k.transpose_2d();
    let (grad_q_post, grad_kt) = matmul_backward(&grad_raw, &saved.q, &kt);
    let grad_k_post = grad_kt.transpose_2d();
    proof {
        assert(grad_k_post.shape() =~= saved.q.shape());
    }
    let grad_q_pre = rope_backward(&grad_q_post);
    let grad_k_pre = rope_backward(&grad_k_post);
    (grad_q_pre, grad_k_pre, grad_v)
}

/// The gradient of the first factor of a matrix product.
pub open spec fn left_grad<T: MatMul + Transpose2D>(g: T::V, b: T::V) -> T::V {
    T::matmul_of(g, T::transpose_2d_of(b))
}

/// The gradient of the second factor of a matrix product.
pub open spec fn right_grad<T: MatMul + Transpose2D>(a: T::V, g: T::V) -> T::V {
    T::matmul_of(T::transpose_2d_of(a), g)
}

/// The weights of a feed-forward layer fit activations of `s` rows and `n` columns.
pub open spec fn ffn_weights_fit<T: Device>(w_gate: T, w_up: T, w_down: T, s: usize, n: usize) -> bool {
    let (g, u, d) = (w_gate.shape(), w_up.shape(), w_down.shape());
    &&& w_gate.sound() && w_up.sound() && w_down.sound()
    &&& g.len() == 2 && u.len() == 2 && d.len() == 2
    &&& g[0] == n && u == g && d[0] == g[1]
    &&& s * g[1] <= usize::MAX && s * d[1] <= usize::MAX
}

/// What a feed-forward layer saved has the shape of `s` rows and `f` columns.
pub open spec fn ffn_saved_fits<T: Device>(sv: FfnSaved<T>, s: usize, f: usize) -> bool {
    &&& is_mat(sv.gate_pre, s, f) && is_mat(sv.gate, s, f)
    &&& is_mat(sv.up, s, f) && is_mat(sv.h, s, f)
}

/// Head `i` fits activations of `s` rows and `n` columns and gives back as many.
pub open spec fn head_fits_at<T: Device>(
    heads: Seq<HeadWeights<T>>,
    s: usize,
    n: usize,
    i: int,
) -> bool {
    let h = heads[i];
    &&& head_weights_fit(h.w_q, h.w_k, h.w_v, h.w_o, s, n)
    &&& h.w_o.shape()[1] == n
}

/// The weights of a block fit activations of `s` rows and `n` columns and give back as many.
pub open spec fn block_weights_fit<T: Device>(
    heads: Seq<HeadWeights<T>>,
    ffn: FfnWeights<T>,
    s: usize,
    n: usize,
) -> bool {
    &&& heads.len() > 0
    &&& forall|i: int| 0 <= i < heads.len() ==> #[trigger] head_fits_at(heads, s, n, i)
    &&& ffn_weights_fit(ffn.w_gate, ffn.w_up, ffn.w_down, s, n)
    &&& ffn.w_down.shape()[1] == n
}

/// The smaller of two numbers.
pub open spec fn paired(a: nat, b: nat) -> nat {
    if a < b {
        a
    } else {
        b
    }
}

/// What a block saved has the shapes of its activations and of the heads it has weights for.
pub open spec fn block_saved_fits_upto<T: Device>(
    sv: BlockSaved<T>,
    heads: Seq<HeadWeights<T>>,
    ffn: FfnWeights<T>,
    shape: Seq<usize>,
) -> bool {
    &&& sv.y1_pre.sound() && sv.y1_pre.shape() == shape
    &&& sv.x1.sound() && sv.x1.shape() == shape
    &&& sv.y2_pre.sound() && sv.y2_pre.shape() == shape
    &&& forall|i: int|
        0 <= i < paired(heads.len(), sv.head_saveds@.len()) ==> saved_fits(
            #[trigger] sv.head_saveds@[i],
            shape[0],
            heads[i].w_q.shape()[1],
            heads[i].w_v.shape()[1],
        )
    &&& ffn_saved_fits(sv.ffn_saved, shape[0], ffn.w_gate.shape()[1])
}

/// What a block saved has the shapes of its activations and of every head.
pub open spec fn block_saved_fits<T: Device>(
    sv: BlockSaved<T>,
    heads: Seq<HeadWeights<T>>,
    ffn: FfnWeights<T>,
    shape: Seq<usize>,
) -> bool {
    sv.head_saveds@.len() == heads.len() && block_saved_fits_upto(sv, heads, ffn, shape)
}

/// The values that some heads saved.
pub open spec fn saved_vals<T: Device>(s: Seq<AttentionHeadSaved<T>>) -> Seq<
    AttentionHeadSaved<T::V>,
> {
    Seq::new(s.len(), |i: int| saved_val(s[i]))
}

/// A head's gradients without that of its input.
pub open spec fn weights_only<X>(g: AttentionHeadGrads<X>) -> HeadWeightGrads<X> {
    HeadWeightGrads {
        grad_w_q: g.grad_w_q,
        grad_w_k: g.grad_w_k,
        grad_w_v: g.grad_w_v,
        grad_w_o: g.grad_w_o,
    }
}

/// The gradients have the shapes of the weights.
pub open spec fn weight_grads_fit<T: Device>(g: HeadWeightGrads<T>, w: HeadWeights<T>) -> bool {
    &&& g.grad_w_q.sound() && g.grad_w_q.shape() == w.w_q.shape()
    &&& g.grad_w_k.sound() && g.grad_w_k.shape() == w.w_k.shape()
    &&& g.grad_w_v.sound() && g.grad_w_v.shape() == w.w_v.shape()
    &&& g.grad_w_o.sound() && g.grad_w_o.shape() == w.w_o.shape()
}

/// The gradients of a block have the shapes of what they belong to.
pub open spec fn block_grads_fit<T: Device>(
    g: BlockGrads<T>,
    heads: Seq<HeadWeights<T>>,
    ffn: FfnWeights<T>,
    shape: Seq<usize>,
    n: nat,
) -> bool {
    &&& g.grad_x.sound() && g.grad_x.shape() == shape
    &&& g.head_grads@.len() == n
    &&& forall|i: int| 0 <= i < n ==> weight_grads_fit(#[trigger] g.head_grads@[i], heads[i])
    &&& g.grad_w_gate.sound() && g.grad_w_gate.shape() == ffn.w_gate.shape()
    &&& g.grad_w_up.sound() && g.grad_w_up.shape() == ffn.w_up.shape()
    &&& g.grad_w_down.sound() && g.grad_w_down.shape() == ffn.w_down.shape()
}

/// What a head of plain projections saves.
pub open spec fn head_saved_of<T: MatMul + MulScalar + Transpose2D + Softmax + CausalMask + Rope>(
    x: T::V,
    w: HeadWeights<T::V>,
    scale: T::S,
) -> AttentionHeadSaved<T::V> {
    saved_of::<T>(
        T::rope_of(T::matmul_of(x, w.w_q)),
        T::rope_of(T::matmul_of(x, w.w_k)),
        T::matmul_of(x, w.w_v),
        scale,
    )
}

/// What a head of plain projections gives.
pub open spec fn head_out_of<T: MatMul + MulScalar + Transpose2D + Softmax + CausalMask + Rope>(
    x: T::V,
    w: HeadWeights<T::V>,
    scale: T::S,
) -> T::V {
    T::matmul_of(head_saved_of::<T>(x, w, scale).ctx, w.w_o)
}

/// An attention head of plain projections, and what its backward pass needs.
pub fn attention_head_forward_save<T: MatMul + MulScalar + Transpose2D + Softmax + CausalMask + Rope>(
    x: &T,
    w_q: &T,
    w_k: &T,
    w_v: &T,
    w_o: &T,
    head_dim: usize,
) -> (r: (T, AttentionHeadSaved<T>))
    requires
        x.sound(),
        x.shape().len() == 2,
        head_weights_fit(*w_q, *w_k, *w_v, *w_o, x.shape()[0], x.shape()[1]),
    ensures
        is_mat(r.0, x.shape()[0], w_o.shape()[1]),
        saved_fits(r.1, x.shape()[0], w_q.shape()[1], w_v.shape()[1]),
        settled::<T>() ==> {
            let w = HeadWeights {
                w_q: w_q.val(),
                w_k: w_k.val(),
                w_v: w_v.val(),
                w_o: w_o.val(),
            };
            &&& r.0.val() == head_out_of::<T>(x.val(), w, head_scale(head_dim))
            &&& saved_val(r.1) == head_saved_of::<T>(x.val(), w, head_scale(head_dim))
        },
{
    let q = x.matmul(w_q).rope();
    let k = x.matmul(w_k).rope();
    let v = x.matmul(w_v);
    let saved = attend(q, k, v, head_dim);
    let out = saved.ctx.matmul(w_o);
    (out, saved)
}

/// The gradients of a head of plain projections.
pub open spec fn head_grads_of<T: MatMul + Add + MulScalar + Transpose2D + SoftmaxBackward + CausalMaskBackward + RopeBackward>(
    grad_out: T::V,
    x: T::V,
    sv: AttentionHeadSaved<T::V>,
    w: HeadWeights<T::V>,
    scale: T::S,
) -> AttentionHeadGrads<T::V> {
    let (gq, gk, gv) = attend_grads_of::<T>(
        left_grad::<T>(grad_out, w.w_o),
        sv,
        scale,
    );
    AttentionHeadGrads {
        grad_x: T::add_of(
            T::add_of(
                left_grad::<T>(gq, w.w_q),
                left_grad::<T>(gk, w.w_k),
            ),
            left_grad::<T>(gv, w.w_v),
        ),
        grad_w_q: right_grad::<T>(x, gq),
        grad_w_k: right_grad::<T>(x, gk),
        grad_w_v: right_grad::<T>(x, gv),
        grad_w_o: right_grad::<T>(sv.ctx, grad_out),
    }
}

/// The backward pass of an attention head of plain projections.
pub fn attention_head_backward<T: MatMul + Add + MulScalar + Transpose2D + SoftmaxBackward + CausalMaskBackward + RopeBackward>(
    grad_out: &T,
    x: &T,
    saved: &AttentionHeadSaved<T>,
    w_q: &T,
    w_k: &T,
    w_v: &T,
    w_o: &T,
    head_dim: usize,
) -> (r: AttentionHeadGrads<T>)
    requires
        x.sound(),
        x.shape().len() == 2,
        head_weights_fit(*w_q, *w_k, *w_v, *w_o, x.shape()[0], x.shape()[1]),
        saved_fits(*saved, x.shape()[0], w_q.shape()[1], w_v.shape()[1]),
        is_mat(*grad_out, x.shape()[0], w_o.shape()[1]),
    ensures
        r.grad_x.sound() && r.grad_x.shape() == x.shape(),
        r.grad_w_q.sound() && r.grad_w_q.shape() == w_q.shape(),
        r.grad_w_k.sound() && r.grad_w_k.shape() == w_k.shape(),
        r.grad_w_v.sound() && r.grad_w_v.shape() == w_v.shape(),
        r.grad_w_o.sound() && r.grad_w_o.shape() == w_o.shape(),
        settled::<T>() ==> head_grads_val(r) == head_grads_of::<T>(
            grad_out.val(),
            x.val(),
            saved_val(*saved),
            HeadWeights { w_q: w_q.val(), w_k: w_k.val(), w_v: w_v.val(), w_o: w_o.val() },
            head_scale(head_dim),
        ),
{
    let (grad_ctx, grad_w_o) = matmul_backward(grad_out, &saved.ctx, w_o);
    let (grad_q, grad_k, grad_v) = attend_backward(&grad_ctx, saved, head_dim);
    let (grad_x_v, grad_w_v) = matmul_backward(&grad_v, x, w_v);
    let (grad_x_q, grad_w_q) = matmul_backward(&grad_q, x, w_q);
    let (grad_x_k, grad_w_k) = matmul_backward(&grad_k, x, w_k);
    let grad_x = grad_x_q.add(&grad_x_k).add(&grad_x_v);
    AttentionHeadGrads { grad_x, grad_w_q, grad_w_k, grad_w_v, grad_w_o }
}

/// What a feed-forward layer of plain projections saves.
pub open spec fn ffn_saved_of<T: MatMul + Silu + Mul>(x: T::V, w: FfnWeights<T::V>) -> FfnSaved<T::V> {
    let gate_pre = T::matmul_of(x, w.w_gate);
    let gate = T::silu_of(gate_pre);
    let up = T::matmul_of(x, w.w_up);
    FfnSaved { gate_pre, gate, up, h: T::mul_of(gate, up) }
}

/// What a feed-forward layer of plain projections gives.
pub open spec fn ffn_out_of<T: MatMul + Silu + Mul>(x: T::V, w: FfnWeights<T::V>) -> T::V {
    T::matmul_of(ffn_saved_of::<T>(x, w).h, w.w_down)
}

/// A feed-forward layer of plain projections, and what its backward pass needs.
pub fn ffn_forward_save<T: MatMul + Silu + Mul>(x: &T, w_gate: &T, w_up: &T, w_down: &T) -> (r: (
    T,
    FfnSaved<T>,
))
    requires
        x.sound(),
        x.shape().len() == 2,
        ffn_weights_fit(*w_gate, *w_up, *w_down, x.shape()[0], x.shape()[1]),
    ensures
        is_mat(r.0, x.shape()[0], w_down.shape()[1]),
        ffn_saved_fits(r.1, x.shape()[0], w_gate.shape()[1]),
        T::exact() ==> {
            let w = FfnWeights {
                w_gate: w_gate.val(),
                w_up: w_up.val(),
                w_down: w_down.val(),
            };
            &&& r.0.val() == ffn_out_of::<T>(x.val(), w)
            &&& ffn_saved_val(r.1) == ffn_saved_of::<T>(x.val(), w)
        },
{
    let gate_pre = x.matmul(w_gate);
    let gate = gate_pre.silu();
    let up = x.matmul(w_up);
    let h = gate.mul(&up);
    let out = h.matmul(w_down);
    (out, FfnSaved { gate_pre, gate, up, h })
}

/// The gradients of a feed-forward layer of plain projections.
pub open spec fn ffn_grads_of<T: MatMul + Mul + Add + Transpose2D + SiluBackward>(
    grad_y: T::V,
    x: T::V,
    sv: FfnSaved<T::V>,
    w: FfnWeights<T::V>,
) -> FfnGrads<T::V> {
    let grad_h = left_grad::<T>(grad_y, w.w_down);
    let grad_gate = T::silu_backward_of(T::mul_of(grad_h, sv.up), sv.gate_pre);
    let grad_up = T::mul_of(grad_h, sv.gate);
    FfnGrads {
        grad_x: T::add_of(
            left_grad::<T>(grad_gate, w.w_gate),
            left_grad::<T>(grad_up, w.w_up),
        ),
        grad_w_gate: right_grad::<T>(x, grad_gate),
        grad_w_up: right_grad::<T>(x, grad_up),
        grad_w_down: right_grad::<T>(sv.h, grad_y),
    }
}

/// The backward pass of a feed-forward layer of plain projections.
pub fn ffn_backward<T: MatMul + Mul + Add + Transpose2D + SiluBackward>(
    grad_y: &T,
    x: &T,
    saved: &FfnSaved<T>,
    w_gate: &T,
    w_up: &T,
    w_down: &T,
) -> (r: FfnGrads<T>)
    requires
        x.sound(),
        x.shape().len() == 2,
        ffn_weights_fit(*w_gate, *w_up, *w_down, x.shape()[0], x.shape()[1]),
        ffn_saved_fits(*saved, x.shape()[0], w_gate.shape()[1]),
        is_mat(*grad_y, x.shape()[0], w_down.shape()[1]),
    ensures
        r.grad_x.sound() && r.grad_x.shape() == x.shape(),
        r.grad_w_gate.sound() && r.grad_w_gate.shape() == w_gate.shape(),
        r.grad_w_up.sound() && r.grad_w_up.shape() == w_up.shape(),
        r.grad_w_down.sound() && r.grad_w_down.shape() == w_down.shape(),
        T::exact() ==> ffn_grads_val(r) == ffn_grads_of::<T>(
            grad_y.val(),
            x.val(),
            ffn_saved_val(*saved),
            FfnWeights { w_gate: w_gate.val(), w_up: w_up.val(), w_down: w_down.val() },
        ),
{
    let (grad_h, grad_w_down) = matmul_backward(grad_y, &saved.h, w_down);
    let (grad_gate, grad_up) = mul_backward(&grad_h, &saved.gate, &saved.up);
    let grad_gate_pre = silu_backward(&grad_gate, &saved.gate_pre);
    let (grad_x_up, grad_w_up) = matmul_backward(&grad_up, x, w_up);
    let (grad_x_gate, grad_w_gate) = matmul_backward(&grad_gate_pre, x, w_gate);
    let grad_x = grad_x_gate.add(&grad_x_up);
    FfnGrads { grad_x, grad_w_gate, grad_w_up, grad_w_down }
}

/// The sum of the outputs of the first `n` heads, from the left.
pub open spec fn heads_sum_of<T: MatMul + MulScalar + Transpose2D + Softmax + CausalMask + Rope + Add>(
    x: T::V,
    heads: Seq<HeadWeights<T::V>>,
    scale: T::S,
    n: nat,
) -> T::V
    decreases n,
{
    if n <= 1 {
        head_out_of::<T>(x, heads[0], scale)
    } else {
        T::add_of(
            heads_sum_of::<T>(x, heads, scale, (n - 1) as nat),
            head_out_of::<T>(x, heads[n - 1], scale),
        )
    }
}

/// The activations after the attention half of a block.
pub open spec fn block_mid_of<T: MatMul + Add + MulScalar + Transpose2D + Softmax + CausalMask + Rope + RmsNorm + Silu + Mul>(
    x: T::V,
    heads: Seq<HeadWeights<T::V>>,
    scale: T::S,
) -> T::V {
    T::add_of(x, heads_sum_of::<T>(T::rmsnorm_of(x), heads, scale, heads.len()))
}

/// What a block of plain projections gives.
pub open spec fn block_out_of<T: MatMul + Add + MulScalar + Transpose2D + Softmax + CausalMask + Rope + RmsNorm + Silu + Mul>(
    x: T::V,
    heads: Seq<HeadWeights<T::V>>,
    ffn: FfnWeights<T::V>,
    scale: T::S,
) -> T::V {
    let x1 = block_mid_of::<T>(x, heads, scale);
    T::add_of(x1, ffn_out_of::<T>(T::rmsnorm_of(x1), ffn))
}

/// What a block of plain projections saves.
pub open spec fn block_saved_ok<T: MatMul + Add + MulScalar + Transpose2D + Softmax + CausalMask + Rope + RmsNorm + Silu + Mul>(
    sv: BlockSaved<T>,
    x: T::V,
    heads: Seq<HeadWeights<T::V>>,
    ffn: FfnWeights<T::V>,
    scale: T::S,
) -> bool {
    let x1 = block_mid_of::<T>(x, heads, scale);
    &&& sv.y1_pre.val() == T::rmsnorm_of(x)
    &&& sv.x1.val() == x1
    &&& sv.y2_pre.val() == T::rmsnorm_of(x1)
    &&& sv.head_saveds@.len() == heads.len()
    &&& forall|i: int|
        0 <= i < heads.len() ==> saved_val(#[trigger] sv.head_saveds@[i]) == head_saved_of::<T>(
            T::rmsnorm_of(x),
            heads[i],
            scale,
        )
    &&& ffn_saved_val(sv.ffn_saved) == ffn_saved_of::<T>(T::rmsnorm_of(x1), ffn)
}

/// A block of plain projections, and what its backward pass needs.
pub fn block_forward_save<T: MatMul + Add + MulScalar + Transpose2D + Softmax + CausalMask + Rope + RmsNorm + Silu + Mul>(
    x: &T,
    heads: &[HeadWeights<T>],
    ffn: &FfnWeights<T>,
    head_dim: usize,
) -> (r: (T, BlockSaved<T>))
    requires
        x.sound(),
        x.shape().len() == 2,
        block_weights_fit(heads@, *ffn, x.shape()[0], x.shape()[1]),
    ensures
        r.0.sound() && r.0.shape() == x.shape(),
        block_saved_fits(r.1, heads@, *ffn, x.shape()),
        settled::<T>() ==> {
            &&& r.0.val() == block_out_of::<T>(
                x.val(),
                heads_val(heads@),
                ffn_val(*ffn),
                head_scale(head_dim),
            )
            &&& block_saved_ok(
                r.1,
                x.val(),
                heads_val(heads@),
                ffn_val(*ffn),
                head_scale(head_dim),
            )
        },
{
    runtime_assert(heads.len() > 0);
    let ghost hv = heads_val(heads@);
    let ghost scale = head_scale::<T::S>(head_dim);
    let y1_pre = x.rmsnorm();
    let mut head_saveds: Vec<AttentionHeadSaved<T>> = Vec::new();
    proof {
        assert(head_fits_at(heads@, x.shape()[0], x.shape()[1], 0));
    }
    let (first, saved) = attention_head_forward_save(
        &y1_pre,
        &heads[0].w_q,
        &heads[0].w_k,
        &heads[0].w_v,
        &heads[0].w_o,
        head_dim,
    );
    head_saveds.push(saved);
    let mut y1 = first;
    let mut i: usize = 1;
    while i < heads.len()
        invariant
            1 <= i <= heads@.len(),
            x.sound(),
            x.shape().len() == 2,
            block_weights_fit(heads@, *ffn, x.shape()[0], x.shape()[1]),
            hv == heads_val(heads@),
            scale == head_scale::<T::S>(head_dim),
            y1_pre.sound(),
            y1_pre.shape() == x.shape(),
            settled::<T>() ==> y1_pre.val() == T::rmsnorm_of(x.val()),
            is_mat(y1, x.shape()[0], x.shape()[1]),
            settled::<T>() ==> y1.val() == heads_sum_of::<T>(y1_pre.val(), hv, scale, i as nat),
            head_saveds@.len() == i,
            forall|j: int|
                0 <= j < i ==> saved_fits(
                    #[trigger] head_saveds@[j],
                    x.shape()[0],
                    heads@[j].w_q.shape()[1],
                    heads@[j].w_v.shape()[1],
                ),
            settled::<T>() ==> forall|j: int|
                0 <= j < i ==> saved_val(#[trigger] head_saveds@[j]) == head_saved_of::<T>(
                    y1_pre.val(),
                    hv[j],
                    scale,
                ),
        decreases heads@.len() - i,
    {
        let h = &heads[i];
        proof {
            assert(head_fits_at(heads@, x.shape()[0], x.shape()[1], i as int));
        }
        let (out, saved) = attention_head_forward_save(
            &y1_pre,
            &h.w_q,
            &h.w_k,
            &h.w_v,
            &h.w_o,
            head_dim,
        );
        y1 = y1.add(&out);
        head_saveds.push(saved);
        i += 1;
    }
    proof {
        assert(y1.shape() =~= x.shape());
    }
    let x1 = x.add(&y1);
    let y2_pre = x1.rmsnorm();
    let (y2, ffn_saved) = ffn_forward_save(&y2_pre, &ffn.w_gate, &ffn.w_up, &ffn.w_down);
    proof {
        assert(y2.shape() =~= x.shape());
    }
    let out = x1.add(&y2);
    let saved = BlockSaved { y1_pre, x1, y2_pre, head_saveds, ffn_saved };
    (out, saved)
}

/// The gradient at the middle of a block: the incoming one and what the
/// feed-forward half passes back.
pub open spec fn block_mid_grad_of<T: MatMul + Add + Mul + MulScalar + Transpose2D + SoftmaxBackward + CausalMaskBackward + RopeBackward + RmsNormBackward + SiluBackward>(
    grad_out: T::V,
    x1: T::V,
    y2_pre: T::V,
    fsv: FfnSaved<T::V>,
    ffn: FfnWeights<T::V>,
) -> T::V {
    T::add_of(
        grad_out,
        T::rmsnorm_backward_of(ffn_grads_of::<T>(grad_out, y2_pre, fsv, ffn).grad_x, x1),
    )
}

/// What the first `n` heads pass back to their common input, from the left.
pub open spec fn heads_grad_of<T: MatMul + Add + Mul + MulScalar + Transpose2D + SoftmaxBackward + CausalMaskBackward + RopeBackward + RmsNormBackward + SiluBackward>(
    g: T::V,
    y1_pre: T::V,
    svs: Seq<AttentionHeadSaved<T::V>>,
    heads: Seq<HeadWeights<T::V>>,
    scale: T::S,
    n: nat,
) -> T::V
    decreases n,
{
    let last = head_grads_of::<T>(g, y1_pre, svs[n - 1], heads[n - 1], scale).grad_x;
    if n <= 1 {
        last
    } else {
        T::add_of(heads_grad_of::<T>(g, y1_pre, svs, heads, scale, (n - 1) as nat), last)
    }
}

/// The gradients of a block of plain projections with `n` heads.
pub open spec fn block_grads_ok<T: MatMul + Add + Mul + MulScalar + Transpose2D + SoftmaxBackward + CausalMaskBackward + RopeBackward + RmsNormBackward + SiluBackward>(
    r: BlockGrads<T>,
    grad_out: T::V,
    x: T::V,
    sv: BlockSaved<T>,
    heads: Seq<HeadWeights<T::V>>,
    ffn: FfnWeights<T::V>,
    scale: T::S,
    n: nat,
) -> bool {
    let fsv = ffn_saved_val(sv.ffn_saved);
    let svs = saved_vals(sv.head_saveds@);
    let fg = ffn_grads_of::<T>(grad_out, sv.y2_pre.val(), fsv, ffn);
    let g = block_mid_grad_of::<T>(grad_out, sv.x1.val(), sv.y2_pre.val(), fsv, ffn);
    &&& r.grad_x.val() == T::add_of(
        g,
        T::rmsnorm_backward_of(
            heads_grad_of::<T>(g, sv.y1_pre.val(), svs, heads, scale, n),
            x,
        ),
    )
    &&& forall|i: int|
        0 <= i < n ==> weight_grads_val(#[trigger] r.head_grads@[i]) == weights_only(
            head_grads_of::<T>(g, sv.y1_pre.val(), svs[i], heads[i], scale),
        )
    &&& r.grad_w_gate.val() == fg.grad_w_gate
    &&& r.grad_w_up.val() == fg.grad_w_up
    &&& r.grad_w_down.val() == fg.grad_w_down
}

/// The backward pass of a block of plain projections.
pub fn block_backward<T: MatMul + Add + Mul + MulScalar + Transpose2D + SoftmaxBackward + CausalMaskBackward + RopeBackward + RmsNormBackward + SiluBackward>(
    grad_out: &T,
    x: &T,
    saved: &BlockSaved<T>,
    heads: &[HeadWeights<T>],
    ffn: &FfnWeights<T>,
    head_dim: usize,
) -> (r: BlockGrads<T>)
    requires
        x.sound(),
        x.shape().len() == 2,
        block_weights_fit(heads@, *ffn, x.shape()[0], x.shape()[1]),
        block_saved_fits(*saved, heads@, *ffn, x.shape()),
        grad_out.sound() && grad_out.shape() == x.shape(),
    ensures
        block_grads_fit(r, heads@, *ffn, x.shape(), heads@.len()),
        settled::<T>() ==> block_grads_ok(
            r,
            grad_out.val(),
            x.val(),
            *saved,
            heads_val(heads@),
            ffn_val(*ffn),
            head_scale(head_dim),
            heads@.len(),
        ),
{
    runtime_assert(heads.len() > 0);
    runtime_assert(heads.len() == saved.head_saveds.len());
    let n: usize = heads.len();
    let ghost hv = heads_val(heads@);
    let ghost svs = saved_vals(saved.head_saveds@);
    let ghost scale = head_scale::<T::S>(head_dim);
    proof {
        assert(grad_out.shape() =~= seq![x.shape()[0], x.shape()[1]]);
        assert(x.shape() =~= seq![x.shape()[0], x.shape()[1]]);
    }
    let (grad_x1_a, grad_y2) = add_backward(grad_out);
    let ffn_grads = ffn_backward(
        &grad_y2,
        &saved.y2_pre,
        &saved.ffn_saved,
        &ffn.w_gate,
        &ffn.w_up,
        &ffn.w_down,
    );
    let grad_x1_b = rmsnorm_backward(&ffn_grads.grad_x, &saved.x1);
    let grad_x1 = grad_x1_a.add(&grad_x1_b);
    let (grad_x_a, grad_y1) = add_backward(&grad_x1);
    let ghost g = grad_y1.val();
    let mut head_grads: Vec<HeadWeightGrads<T>> = Vec::new();
    proof {
        assert(head_fits_at(heads@, x.shape()[0], x.shape()[1], 0));
        assert(saved_fits(
            saved.head_saveds@[0],
            x.shape()[0],
            heads@[0].w_q.shape()[1],
            heads@[0].w_v.shape()[1],
        ));
    }
    let first = attention_head_backward(
        &grad_y1,
        &saved.y1_pre,
        &saved.head_saveds[0],
        &heads[0].w_q,
        &heads[0].w_k,
        &heads[0].w_v,
        &heads[0].w_o,
        head_dim,
    );
    let mut grad_y1_pre = first.grad_x;
    head_grads.push(
        HeadWeightGrads {
            grad_w_q: first.grad_w_q,
            grad_w_k: first.grad_w_k,
            grad_w_v: first.grad_w_v,
            grad_w_o: first.grad_w_o,
        },
    );
    proof {
        if settled::<T>() {
            assert(svs[0] == saved_val(saved.head_saveds@[0]));
            assert(hv[0] == head_val(heads@[0]));
        }
    }
    let mut i: usize = 1;
    while i < n
        invariant
            1 <= i <= n,
            n <= heads@.len(),
            n <= saved.head_saveds@.len(),
            x.sound(),
            x.shape().len() == 2,
            block_weights_fit(heads@, *ffn, x.shape()[0], x.shape()[1]),
            forall|j: int|
                0 <= j < n ==> saved_fits(
                    #[trigger] saved.head_saveds@[j],
                    x.shape()[0],
                    heads@[j].w_q.shape()[1],
                    heads@[j].w_v.shape()[1],
                ),
            saved.y1_pre.sound(),
            saved.y1_pre.shape() == x.shape(),
            grad_y1.sound(),
            grad_y1.shape() == x.shape(),
            x.shape() == seq![x.shape()[0], x.shape()[1]],
            g == grad_y1.val(),
            hv == heads_val(heads@),
            svs == saved_vals(saved.head_saveds@),
            scale == head_scale::<T::S>(head_dim),
            grad_y1_pre.sound(),
            grad_y1_pre.shape() == x.shape(),
            settled::<T>() ==> grad_y1_pre.val() == heads_grad_of::<T>(
                g,
                saved.y1_pre.val(),
                svs,
                hv,
                scale,
                i as nat,
            ),
            head_grads@.len() == i,
            forall|j: int|
                0 <= j < i ==> weight_grads_fit(#[trigger] head_grads@[j], heads@[j]),
            settled::<T>() ==> forall|j: int|
                0 <= j < i ==> weight_grads_val(#[trigger] head_grads@[j]) == weights_only(
                    head_grads_of::<T>(g, saved.y1_pre.val(), svs[j], hv[j], scale),
                ),
        decreases n - i,
    {
        let h = &heads[i];
        proof {
            assert(head_fits_at(heads@, x.shape()[0], x.shape()[1], i as int));
            assert(saved_fits(
                saved.head_saveds@[i as int],
                x.shape()[0],
                heads@[i as int].w_q.shape()[1],
                heads@[i as int].w_v.shape()[1],
            ));
        }
        let one = attention_head_backward(
            &grad_y1,
            &saved.y1_pre,
            &saved.head_saveds[i],
            &h.w_q,
            &h.w_k,
            &h.w_v,
            &h.w_o,
            head_dim,
        );
        grad_y1_pre = grad_y1_pre.add(&one.grad_x);
        head_grads.push(
            HeadWeightGrads {
                grad_w_q: one.grad_w_q,
                grad_w_k: one.grad_w_k,
                grad_w_v: one.grad_w_v,
                grad_w_o: one.grad_w_o,
            },
        );
        proof {
            if settled::<T>() {
                assert(svs[i as int] == saved_val(saved.head_saveds@[i as int]));
                assert(hv[i as int] == head_val(heads@[i as int]));
            }
        }
        i += 1;
    }
    let grad_x_b = rmsnorm_backward(&grad_y1_pre, x);
    let grad_x = grad_x_a.add(&grad_x_b);
    BlockGrads {
        grad_x,
        head_grads,
        grad_w_gate: ffn_grads.grad_w_gate,
        grad_w_up: ffn_grads.grad_w_up,
        grad_w_down: ffn_grads.grad_w_down,
    }
}

/// What a head of quantised projections saves.
pub open spec fn head_saved_bit_of<T: MatMul + MulScalar + Transpose2D + Softmax + CausalMask + Rope + BitLinear>(
    x: T::V,
    w: HeadWeights<T::V>,
    scale: T::S,
) -> AttentionHeadSaved<T::V> {
    saved_of::<T>(
        T::rope_of(T::bit_linear_of(x, w.w_q)),
        T::rope_of(T::bit_linear_of(x, w.w_k)),
        T::bit_linear_of(x, w.w_v),
        scale,
    )
}

/// What a head of quantised projections gives.
pub open spec fn head_out_bit_of<T: MatMul + MulScalar + Transpose2D + Softmax + CausalMask + Rope + BitLinear>(
    x: T::V,
    w: HeadWeights<T::V>,
    scale: T::S,
) -> T::V {
    T::bit_linear_of(head_saved_bit_of::<T>(x, w, scale).ctx, w.w_o)
}

/// An attention head of quantised projections, and what its backward pass needs.
pub fn attention_head_forward_save_bitnet<T: MatMul + MulScalar + Transpose2D + Softmax + CausalMask + Rope + BitLinear>(
    x: &T,
    w_q: &T,
    w_k: &T,
    w_v: &T,
    w_o: &T,
    head_dim: usize,
) -> (r: (T, AttentionHeadSaved<T>))
    requires
        x.sound(),
        x.shape().len() == 2,
        head_weights_fit(*w_q, *w_k, *w_v, *w_o, x.shape()[0], x.shape()[1]),
    ensures
        is_mat(r.0, x.shape()[0], w_o.shape()[1]),
        saved_fits(r.1, x.shape()[0], w_q.shape()[1], w_v.shape()[1]),
        settled::<T>() ==> {
            let w = HeadWeights {
                w_q: w_q.val(),
                w_k: w_k.val(),
                w_v: w_v.val(),
                w_o: w_o.val(),
            };
            &&& r.0.val() == head_out_bit_of::<T>(x.val(), w, head_scale(head_dim))
            &&& saved_val(r.1) == head_saved_bit_of::<T>(x.val(), w, head_scale(head_dim))
        },
{
    let q = x.bit_linear(w_q).rope();
    let k = x.bit_linear(w_k).rope();
    let v = x.bit_linear(w_v);
    let saved = attend(q, k, v, head_dim);
    let out = saved.ctx.bit_linear(w_o);
    (out, saved)
}

/// The gradients of a head of quantised projections.
pub open spec fn head_grads_bit_of<T: MatMul + Add + MulScalar + Transpose2D + SoftmaxBackward + CausalMaskBackward + RopeBackward + QuantiseActsSTE + QuantiseWeightsSTE>(
    grad_out: T::V,
    x: T::V,
    sv: AttentionHeadSaved<T::V>,
    w: HeadWeights<T::V>,
    scale: T::S,
) -> AttentionHeadGrads<T::V> {
    let (gq, gk, gv) = attend_grads_of::<T>(
        left_grad::<T>(grad_out, T::quantise_weights_ste_of(w.w_o)),
        sv,
        scale,
    );
    AttentionHeadGrads {
        grad_x: T::add_of(
            T::add_of(
                left_grad::<T>(gq, T::quantise_weights_ste_of(w.w_q)),
                left_grad::<T>(gk, T::quantise_weights_ste_of(w.w_k)),
            ),
            left_grad::<T>(gv, T::quantise_weights_ste_of(w.w_v)),
        ),
        grad_w_q: right_grad::<T>(T::quantise_acts_ste_of(x), gq),
        grad_w_k: right_grad::<T>(T::quantise_acts_ste_of(x), gk),
        grad_w_v: right_grad::<T>(T::quantise_acts_ste_of(x), gv),
        grad_w_o: right_grad::<T>(T::quantise_acts_ste_of(sv.ctx), grad_out),
    }
}

/// The backward pass of an attention head of quantised projections.
pub fn attention_head_backward_bitnet<T: MatMul + Add + MulScalar + Transpose2D + SoftmaxBackward + CausalMaskBackward + RopeBackward + QuantiseActsSTE + QuantiseWeightsSTE>(
    grad_out: &T,
    x: &T,
    saved: &AttentionHeadSaved<T>,
    w_q: &T,
    w_k: &T,
    w_v: &T,
    w_o: &T,
    head_dim: usize,
) -> (r: AttentionHeadGrads<T>)
    requires
        x.sound(),
        x.shape().len() == 2,
        head_weights_fit(*w_q, *w_k, *w_v, *w_o, x.shape()[0], x.shape()[1]),
        saved_fits(*saved, x.shape()[0], w_q.shape()[1], w_v.shape()[1]),
        is_mat(*grad_out, x.shape()[0], w_o.shape()[1]),
    ensures
        r.grad_x.sound() && r.grad_x.shape() == x.shape(),
        r.grad_w_q.sound() && r.grad_w_q.shape() == w_q.shape(),
        r.grad_w_k.sound() && r.grad_w_k.shape() == w_k.shape(),
        r.grad_w_v.sound() && r.grad_w_v.shape() == w_v.shape(),
        r.grad_w_o.sound() && r.grad_w_o.shape() == w_o.shape(),
        settled::<T>() ==> head_grads_val(r) == head_grads_bit_of::<T>(
            grad_out.val(),
            x.val(),
            saved_val(*saved),
            HeadWeights { w_q: w_q.val(), w_k: w_k.val(), w_v: w_v.val(), w_o: w_o.val() },
            head_scale(head_dim),
        ),
{
    let (grad_ctx, grad_w_o) = bit_linear_backward(grad_out, &saved.ctx, w_o);
    let (grad_q, grad_k, grad_v) = attend_backward(&grad_ctx, saved, head_dim);
    let (grad_x_v, grad_w_v) = bit_linear_backward(&grad_v, x, w_v);
    let (grad_x_q, grad_w_q) = bit_linear_backward(&grad_q, x, w_q);
    let (grad_x_k, grad_w_k) = bit_linear_backward(&grad_k, x, w_k);
    let grad_x = grad_x_q.add(&grad_x_k).add(&grad_x_v);
    AttentionHeadGrads { grad_x, grad_w_q, grad_w_k, grad_w_v, grad_w_o }
}

/// What a feed-forward layer of quantised projections saves.
pub open spec fn ffn_saved_bit_of<T: BitLinear + Silu + Mul>(x: T::V, w: FfnWeights<T::V>) -> FfnSaved<T::V> {
    let gate_pre = T::bit_linear_of(x, w.w_gate);
    let gate = T::silu_of(gate_pre);
    let up = T::bit_linear_of(x, w.w_up);
    FfnSaved { gate_pre, gate, up, h: T::mul_of(gate, up) }
}

/// What a feed-forward layer of quantised projections gives.
pub open spec fn ffn_out_bit_of<T: BitLinear + Silu + Mul>(x: T::V, w: FfnWeights<T::V>) -> T::V {
    T::bit_linear_of(ffn_saved_bit_of::<T>(x, w).h, w.w_down)
}

/// A feed-forward layer of quantised projections, and what its backward pass needs.
pub fn ffn_forward_save_bitnet<T: BitLinear + Silu + Mul>(x: &T, w_gate: &T, w_up: &T, w_down: &T) -> (r: (
    T,
    FfnSaved<T>,
))
    requires
        x.sound(),
        x.shape().len() == 2,
        ffn_weights_fit(*w_gate, *w_up, *w_down, x.shape()[0], x.shape()[1]),
    ensures
        is_mat(r.0, x.shape()[0], w_down.shape()[1]),
        ffn_saved_fits(r.1, x.shape()[0], w_gate.shape()[1]),
        T::exact() ==> {
            let w = FfnWeights {
                w_gate: w_gate.val(),
                w_up: w_up.val(),
                w_down: w_down.val(),
            };
            &&& r.0.val() == ffn_out_bit_of::<T>(x.val(), w)
            &&& ffn_saved_val(r.1) == ffn_saved_bit_of::<T>(x.val(), w)
        },
{
    let gate_pre = x.bit_linear(w_gate);
    let gate = gate_pre.silu();
    let up = x.bit_linear(w_up);
    let h = gate.mul(&up);
    let out = h.bit_linear(w_down);
    (out, FfnSaved { gate_pre, gate, up, h })
}

/// The gradients of a feed-forward layer of quantised projections.
pub open spec fn ffn_grads_bit_of<T: MatMul + Mul + Add + Transpose2D + SiluBackward + QuantiseActsSTE + QuantiseWeightsSTE>(
    grad_y: T::V,
    x: T::V,
    sv: FfnSaved<T::V>,
    w: FfnWeights<T::V>,
) -> FfnGrads<T::V> {
    let grad_h = left_grad::<T>(grad_y, T::quantise_weights_ste_of(w.w_down));
    let grad_gate = T::silu_backward_of(T::mul_of(grad_h, sv.up), sv.gate_pre);
    let grad_up = T::mul_of(grad_h, sv.gate);
    FfnGrads {
        grad_x: T::add_of(
            left_grad::<T>(grad_gate, T::quantise_weights_ste_of(w.w_gate)),
            left_grad::<T>(grad_up, T::quantise_weights_ste_of(w.w_up)),
        ),
        grad_w_gate: right_grad::<T>(T::quantise_acts_ste_of(x), grad_gate),
        grad_w_up: right_grad::<T>(T::quantise_acts_ste_of(x), grad_up),
        grad_w_down: right_grad::<T>(T::quantise_acts_ste_of(sv.h), grad_y),
    }
}

/// The backward pass of a feed-forward layer of quantised projections.
pub fn ffn_backward_bitnet<T: MatMul + Mul + Add + Transpose2D + SiluBackward + QuantiseActsSTE + QuantiseWeightsSTE>(
    grad_y: &T,
    x: &T,
    saved: &FfnSaved<T>,
    w_gate: &T,
    w_up: &T,
    w_down: &T,
) -> (r: FfnGrads<T>)
    requires
        x.sound(),
        x.shape().len() == 2,
        ffn_weights_fit(*w_gate, *w_up, *w_down, x.shape()[0], x.shape()[1]),
        ffn_saved_fits(*saved, x.shape()[0], w_gate.shape()[1]),
        is_mat(*grad_y, x.shape()[0], w_down.shape()[1]),
    ensures
        r.grad_x.sound() && r.grad_x.shape() == x.shape(),
        r.grad_w_gate.sound() && r.grad_w_gate.shape() == w_gate.shape(),
        r.grad_w_up.sound() && r.grad_w_up.shape() == w_up.shape(),
        r.grad_w_down.sound() && r.grad_w_down.shape() == w_down.shape(),
        T::exact() ==> ffn_grads_val(r) == ffn_grads_bit_of::<T>(
            grad_y.val(),
            x.val(),
            ffn_saved_val(*saved),
            FfnWeights { w_gate: w_gate.val(), w_up: w_up.val(), w_down: w_down.val() },
        ),
{
    let (grad_h, grad_w_down) = bit_linear_backward(grad_y, &saved.h, w_down);
    let (grad_gate, grad_up) = mul_backward(&grad_h, &saved.gate, &saved.up);
    let grad_gate_pre = silu_backward(&grad_gate, &saved.gate_pre);
    let (grad_x_up, grad_w_up) = bit_linear_backward(&grad_up, x, w_up);
    let (grad_x_gate, grad_w_gate) = bit_linear_backward(&grad_gate_pre, x, w_gate);
    let grad_x = grad_x_gate.add(&grad_x_up);
    FfnGrads { grad_x, grad_w_gate, grad_w_up, grad_w_down }
}

/// The sum of the outputs of the first `n` heads, from the left.
pub open spec fn heads_sum_bit_of<T: MatMul + MulScalar + Transpose2D + Softmax + CausalMask + Rope + BitLinear + Add>(
    x: T::V,
    heads: Seq<HeadWeights<T::V>>,
    scale: T::S,
    n: nat,
) -> T::V
    decreases n,
{
    if n <= 1 {
        head_out_bit_of::<T>(x, heads[0], scale)
    } else {
        T::add_of(
            heads_sum_bit_of::<T>(x, heads, scale, (n - 1) as nat),
            head_out_bit_of::<T>(x, heads[n - 1], scale),
        )
    }
}

/// The activations after the attention half of a block.
pub open spec fn block_mid_bit_of<T: MatMul + Add + MulScalar + Transpose2D + Softmax + CausalMask + Rope + RmsNorm + Silu + Mul + BitLinear>(
    x: T::V,
    heads: Seq<HeadWeights<T::V>>,
    scale: T::S,
) -> T::V {
    T::add_of(x, heads_sum_bit_of::<T>(T::rmsnorm_of(x), heads, scale, heads.len()))
}

/// What a block of quantised projections gives.
pub open spec fn block_out_bit_of<T: MatMul + Add + MulScalar + Transpose2D + Softmax + CausalMask + Rope + RmsNorm + Silu + Mul + BitLinear>(
    x: T::V,
    heads: Seq<HeadWeights<T::V>>,
    ffn: FfnWeights<T::V>,
    scale: T::S,
) -> T::V {
    let x1 = block_mid_bit_of::<T>(x, heads, scale);
    T::add_of(x1, ffn_out_bit_of::<T>(T::rmsnorm_of(x1), ffn))
}

/// What a block of quantised projections saves.
pub open spec fn block_saved_bit_ok<T: MatMul + Add + MulScalar + Transpose2D + Softmax + CausalMask + Rope + RmsNorm + Silu + Mul + BitLinear>(
    sv: BlockSaved<T>,
    x: T::V,
    heads: Seq<HeadWeights<T::V>>,
    ffn: FfnWeights<T::V>,
    scale: T::S,
) -> bool {
    let x1 = block_mid_bit_of::<T>(x, heads, scale);
    &&& sv.y1_pre.val() == T::rmsnorm_of(x)
    &&& sv.x1.val() == x1
    &&& sv.y2_pre.val() == T::rmsnorm_of(x1)
    &&& sv.head_saveds@.len() == heads.len()
    &&& forall|i: int|
        0 <= i < heads.len() ==> saved_val(#[trigger] sv.head_saveds@[i]) == head_saved_bit_of::<T>(
            T::rmsnorm_of(x),
            heads[i],
            scale,
        )
    &&& ffn_saved_val(sv.ffn_saved) == ffn_saved_bit_of::<T>(T::rmsnorm_of(x1), ffn)
}

/// A block of quantised projections, and what its backward pass needs.
pub fn block_forward_save_bitnet<T: MatMul + Add + MulScalar + Transpose2D + Softmax + CausalMask + Rope + RmsNorm + Silu + Mul + BitLinear>(
    x: &T,
    heads: &[HeadWeights<T>],
    ffn: &FfnWeights<T>,
    head_dim: usize,
) -> (r: (T, BlockSaved<T>))
    requires
        x.sound(),
        x.shape().len() == 2,
        block_weights_fit(heads@, *ffn, x.shape()[0], x.shape()[1]),
    ensures
        r.0.sound() && r.0.shape() == x.shape(),
        block_saved_fits(r.1, heads@, *ffn, x.shape()),
        settled::<T>() ==> {
            &&& r.0.val() == block_out_bit_of::<T>(
                x.val(),
                heads_val(heads@),
                ffn_val(*ffn),
                head_scale(head_dim),
            )
            &&& block_saved_bit_ok(
                r.1,
                x.val(),
                heads_val(heads@),
                ffn_val(*ffn),
                head_scale(head_dim),
            )
        },
{
    runtime_assert(heads.len() > 0);
    let ghost hv = heads_val(heads@);
    let ghost scale = head_scale::<T::S>(head_dim);
    let y1_pre = x.rmsnorm();
    let mut head_saveds: Vec<AttentionHeadSaved<T>> = Vec::new();
    proof {
        assert(head_fits_at(heads@, x.shape()[0], x.shape()[1], 0));
    }
    let (first, saved) = attention_head_forward_save_bitnet(
        &y1_pre,
        &heads[0].w_q,
        &heads[0].w_k,
        &heads[0].w_v,
        &heads[0].w_o,
        head_dim,
    );
    head_saveds.push(saved);
    let mut y1 = first;
    let mut i: usize = 1;
    while i < heads.len()
        invariant
            1 <= i <= heads@.len(),
            x.sound(),
            x.shape().len() == 2,
            block_weights_fit(heads@, *ffn, x.shape()[0], x.shape()[1]),
            hv == heads_val(heads@),
            scale == head_scale::<T::S>(head_dim),
            y1_pre.sound(),
            y1_pre.shape() == x.shape(),
            settled::<T>() ==> y1_pre.val() == T::rmsnorm_of(x.val()),
            is_mat(y1, x.shape()[0], x.shape()[1]),
            settled::<T>() ==> y1.val() == heads_sum_bit_of::<T>(y1_pre.val(), hv, scale, i as nat),
            head_saveds@.len() == i,
            forall|j: int|
                0 <= j < i ==> saved_fits(
                    #[trigger] head_saveds@[j],
                    x.shape()[0],
                    heads@[j].w_q.shape()[1],
                    heads@[j].w_v.shape()[1],
                ),
            settled::<T>() ==> forall|j: int|
                0 <= j < i ==> saved_val(#[trigger] head_saveds@[j]) == head_saved_bit_of::<T>(
                    y1_pre.val(),
                    hv[j],
                    scale,
                ),
        decreases heads@.len() - i,
    {
        let h = &heads[i];
        proof {
            assert(head_fits_at(heads@, x.shape()[0], x.shape()[1], i as int));
        }
        let (out, saved) = attention_head_forward_save_bitnet(
            &y1_pre,
            &h.w_q,
            &h.w_k,
            &h.w_v,
            &h.w_o,
            head_dim,
        );
        y1 = y1.add(&out);
        head_saveds.push(saved);
        i += 1;
    }
    proof {
        assert(y1.shape() =~= x.shape());
    }
    let x1 = x.add(&y1);
    let y2_pre = x1.rmsnorm();
    let (y2, ffn_saved) = ffn_forward_save_bitnet(&y2_pre, &ffn.w_gate, &ffn.w_up, &ffn.w_down);
    proof {
        assert(y2.shape() =~= x.shape());
    }
    let out = x1.add(&y2);
    let saved = BlockSaved { y1_pre, x1, y2_pre, head_saveds, ffn_saved };
    (out, saved)
}

/// The gradient at the middle of a block: the incoming one and what the
/// feed-forward half passes back.
pub open spec fn block_mid_grad_bit_of<T: MatMul + Add + Mul + MulScalar + Transpose2D + SoftmaxBackward + CausalMaskBackward + RopeBackward + RmsNormBackward + SiluBackward + QuantiseActsSTE + QuantiseWeightsSTE>(
    grad_out: T::V,
    x1: T::V,
    y2_pre: T::V,
    fsv: FfnSaved<T::V>,
    ffn: FfnWeights<T::V>,
) -> T::V {
    T::add_of(
        grad_out,
        T::rmsnorm_backward_of(ffn_grads_bit_of::<T>(grad_out, y2_pre, fsv, ffn).grad_x, x1),
    )
}

/// What the first `n` heads pass back to their common input, from the left.
pub open spec fn heads_grad_bit_of<T: MatMul + Add + Mul + MulScalar + Transpose2D + SoftmaxBackward + CausalMaskBackward + RopeBackward + RmsNormBackward + SiluBackward + QuantiseActsSTE + QuantiseWeightsSTE>(
    g: T::V,
    y1_pre: T::V,
    svs: Seq<AttentionHeadSaved<T::V>>,
    heads: Seq<HeadWeights<T::V>>,
    scale: T::S,
    n: nat,
) -> T::V
    decreases n,
{
    let last = head_grads_bit_of::<T>(g, y1_pre, svs[n - 1], heads[n - 1], scale).grad_x;
    if n <= 1 {
        last
    } else {
        T::add_of(heads_grad_bit_of::<T>(g, y1_pre, svs, heads, scale, (n - 1) as nat), last)
    }
}

/// The gradients of a block of quantised projections with `n` heads.
pub open spec fn block_grads_bit_ok<T: MatMul + Add + Mul + MulScalar + Transpose2D + SoftmaxBackward + CausalMaskBackward + RopeBackward + RmsNormBackward + SiluBackward + QuantiseActsSTE + QuantiseWeightsSTE>(
    r: BlockGrads<T>,
    grad_out: T::V,
    x: T::V,
    sv: BlockSaved<T>,
    heads: Seq<HeadWeights<T::V>>,
    ffn: FfnWeights<T::V>,
    scale: T::S,
    n: nat,
) -> bool {
    let fsv = ffn_saved_val(sv.ffn_saved);
    let svs = saved_vals(sv.head_saveds@);
    let fg = ffn_grads_bit_of::<T>(grad_out, sv.y2_pre.val(), fsv, ffn);
    let g = block_mid_grad_bit_of::<T>(grad_out, sv.x1.val(), sv.y2_pre.val(), fsv, ffn);
    &&& r.grad_x.val() == T::add_of(
        g,
        T::rmsnorm_backward_of(
            heads_grad_bit_of::<T>(g, sv.y1_pre.val(), svs, heads, scale, n),
            x,
        ),
    )
    &&& forall|i: int|
        0 <= i < n ==> weight_grads_val(#[trigger] r.head_grads@[i]) == weights_only(
            head_grads_bit_of::<T>(g, sv.y1_pre.val(), svs[i], heads[i], scale),
        )
    &&& r.grad_w_gate.val() == fg.grad_w_gate
    &&& r.grad_w_up.val() == fg.grad_w_up
    &&& r.grad_w_down.val() == fg.grad_w_down
}

/// The backward pass of a block of quantised projections. Heads beyond those
/// saved, and saved heads beyond the weights, are left out.
pub fn block_backward_bitnet<T: MatMul + Add + Mul + MulScalar + Transpose2D + SoftmaxBackward + CausalMaskBackward + RopeBackward + RmsNormBackward + SiluBackward + QuantiseActsSTE + QuantiseWeightsSTE>(
    grad_out: &T,
    x: &T,
    saved: &BlockSaved<T>,
    heads: &[HeadWeights<T>],
    ffn: &FfnWeights<T>,
    head_dim: usize,
) -> (r: BlockGrads<T>)
    requires
        x.sound(),
        x.shape().len() == 2,
        saved.head_saveds@.len() > 0,
        block_weights_fit(heads@, *ffn, x.shape()[0], x.shape()[1]),
        block_saved_fits_upto(*saved, heads@, *ffn, x.shape()),
        grad_out.sound() && grad_out.shape() == x.shape(),
    ensures
        block_grads_fit(r, heads@, *ffn, x.shape(), paired(heads@.len(), saved.head_saveds@.len())),
        settled::<T>() ==> block_grads_bit_ok(
            r,
            grad_out.val(),
            x.val(),
            *saved,
            heads_val(heads@),
            ffn_val(*ffn),
            head_scale(head_dim),
            paired(heads@.len(), saved.head_saveds@.len()),
        ),
{
    runtime_assert(heads.len() > 0);
    let n: usize = if heads.len() < saved.head_saveds.len() {
        heads.len()
    } else {
        saved.head_saveds.len()
    };
    let ghost hv = heads_val(heads@);
    let ghost svs = saved_vals(saved.head_saveds@);
    let ghost scale = head_scale::<T::S>(head_dim);
    proof {
        assert(grad_out.shape() =~= seq![x.shape()[0], x.shape()[1]]);
        assert(x.shape() =~= seq![x.shape()[0], x.shape()[1]]);
    }
    let (grad_x1_a, grad_y2) = add_backward(grad_out);
    let ffn_grads = ffn_backward_bitnet(
        &grad_y2,
        &saved.y2_pre,
        &saved.ffn_saved,
        &ffn.w_gate,
        &ffn.w_up,
        &ffn.w_down,
    );
    let grad_x1_b = rmsnorm_backward(&ffn_grads.grad_x, &saved.x1);
    let grad_x1 = grad_x1_a.add(&grad_x1_b);
    let (grad_x_a, grad_y1) = add_backward(&grad_x1);
    let ghost g = grad_y1.val();
    let mut head_grads: Vec<HeadWeightGrads<T>> = Vec::new();
    proof {
        assert(head_fits_at(heads@, x.shape()[0], x.shape()[1], 0));
        assert(saved_fits(
            saved.head_saveds@[0],
            x.shape()[0],
            heads@[0].w_q.shape()[1],
            heads@[0].w_v.shape()[1],
        ));
    }
    let first = attention_head_backward_bitnet(
        &grad_y1,
        &saved.y1_pre,
        &saved.head_saveds[0],
        &heads[0].w_q,
        &heads[0].w_k,
        &heads[0].w_v,
        &heads[0].w_o,
        head_dim,
    );
    let mut grad_y1_pre = first.grad_x;
    head_grads.push(
        HeadWeightGrads {
            grad_w_q: first.grad_w_q,
            grad_w_k: first.grad_w_k,
            grad_w_v: first.grad_w_v,
            grad_w_o: first.grad_w_o,
        },
    );
    proof {
        if settled::<T>() {
            assert(svs[0] == saved_val(saved.head_saveds@[0]));
            assert(hv[0] == head_val(heads@[0]));
        }
    }
    let mut i: usize = 1;
    while i < n
        invariant
            1 <= i <= n,
            n <= heads@.len(),
            n <= saved.head_saveds@.len(),
            x.sound(),
            x.shape().len() == 2,
            block_weights_fit(heads@, *ffn, x.shape()[0], x.shape()[1]),
            forall|j: int|
                0 <= j < n ==> saved_fits(
                    #[trigger] saved.head_saveds@[j],
                    x.shape()[0],
                    heads@[j].w_q.shape()[1],
                    heads@[j].w_v.shape()[1],
                ),
            saved.y1_pre.sound(),
            saved.y1_pre.shape() == x.shape(),
            grad_y1.sound(),
            grad_y1.shape() == x.shape(),
            x.shape() == seq![x.shape()[0], x.shape()[1]],
            g == grad_y1.val(),
            hv == heads_val(heads@),
            svs == saved_vals(saved.head_saveds@),
            scale == head_scale::<T::S>(head_dim),
            grad_y1_pre.sound(),
            grad_y1_pre.shape() == x.shape(),
            settled::<T>() ==> grad_y1_pre.val() == heads_grad_bit_of::<T>(
                g,
                saved.y1_pre.val(),
                svs,
                hv,
                scale,
                i as nat,
            ),
            head_grads@.len() == i,
            forall|j: int|
                0 <= j < i ==> weight_grads_fit(#[trigger] head_grads@[j], heads@[j]),
            settled::<T>() ==> forall|j: int|
                0 <= j < i ==> weight_grads_val(#[trigger] head_grads@[j]) == weights_only(
                    head_grads_bit_of::<T>(g, saved.y1_pre.val(), svs[j], hv[j], scale),
                ),
        decreases n - i,
    {
        let h = &heads[i];
        proof {
            assert(head_fits_at(heads@, x.shape()[0], x.shape()[1], i as int));
            assert(saved_fits(
                saved.head_saveds@[i as int],
                x.shape()[0],
                heads@[i as int].w_q.shape()[1],
                heads@[i as int].w_v.shape()[1],
            ));
        }
        let one = attention_head_backward_bitnet(
            &grad_y1,
            &saved.y1_pre,
            &saved.head_saveds[i],
            &h.w_q,
            &h.w_k,
            &h.w_v,
            &h.w_o,
            head_dim,
        );
        grad_y1_pre = grad_y1_pre.add(&one.grad_x);
        head_grads.push(
            HeadWeightGrads {
                grad_w_q: one.grad_w_q,
                grad_w_k: one.grad_w_k,
                grad_w_v: one.grad_w_v,
                grad_w_o: one.grad_w_o,
            },
        );
        proof {
            if settled::<T>() {
                assert(svs[i as int] == saved_val(saved.head_saveds@[i as int]));
                assert(hv[i as int] == head_val(heads@[i as int]));
            }
        }
        i += 1;
    }
    let grad_x_b = rmsnorm_backward(&grad_y1_pre, x);
    let grad_x = grad_x_a.add(&grad_x_b);
    BlockGrads {
        grad_x,
        head_grads,
        grad_w_gate: ffn_grads.grad_w_gate,
        grad_w_up: ffn_grads.grad_w_up,
        grad_w_down: ffn_grads.grad_w_down,
    }
}

/// An attention head of plain projections.
pub fn attention_head_inference<T: MatMul + MulScalar + Transpose2D + Softmax + CausalMask + Rope>(
    x: &T,
    w_q: &T,
    w_k: &T,
    w_v: &T,
    w_o: &T,
    head_dim: usize,
) -> (r: T)
    requires
        x.sound(),
        x.shape().len() == 2,
        head_weights_fit(*w_q, *w_k, *w_v, *w_o, x.shape()[0], x.shape()[1]),
    ensures
        is_mat(r, x.shape()[0], w_o.shape()[1]),
        settled::<T>() ==> r.val() == head_out_of::<T>(
            x.val(),
            HeadWeights { w_q: w_q.val(), w_k: w_k.val(), w_v: w_v.val(), w_o: w_o.val() },
            head_scale(head_dim),
        ),
{
    let q = x.matmul(w_q).rope();
    let k = x.matmul(w_k).rope();
    let v = x.matmul(w_v);
    let mixed = attend(q, k, v, head_dim);
    mixed.ctx.matmul(w_o)
}

/// Multi-head attention of plain projections: the heads' outputs summed from the left.
pub fn multi_head_attention_inference<T: MatMul + Add + MulScalar + Transpose2D + Softmax + CausalMask + Rope>(
    x: &T,
    heads: &[HeadWeights<T>],
    head_dim: usize,
) -> (r: T)
    requires
        x.sound(),
        x.shape().len() == 2,
        heads@.len() > 0,
        forall|i: int|
            0 <= i < heads@.len() ==> {
                let h = #[trigger] heads@[i];
                &&& head_weights_fit(h.w_q, h.w_k, h.w_v, h.w_o, x.shape()[0], x.shape()[1])
                &&& h.w_o.shape()[1] == heads@[0].w_o.shape()[1]
            },
    ensures
        is_mat(r, x.shape()[0], heads@[0].w_o.shape()[1]),
        settled::<T>() ==> r.val() == heads_sum_of::<T>(
            x.val(),
            heads_val(heads@),
            head_scale(head_dim),
            heads@.len(),
        ),
{
    runtime_assert(heads.len() > 0);
    let ghost hv = heads_val(heads@);
    let ghost scale = head_scale::<T::S>(head_dim);
    proof {
        let h = heads@[0];
        assert(head_weights_fit(h.w_q, h.w_k, h.w_v, h.w_o, x.shape()[0], x.shape()[1]));
        assert(hv[0] == head_val(h));
    }
    let mut combined = attention_head_inference(
        x,
        &heads[0].w_q,
        &heads[0].w_k,
        &heads[0].w_v,
        &heads[0].w_o,
        head_dim,
    );
    let mut i: usize = 1;
    while i < heads.len()
        invariant
            1 <= i <= heads@.len(),
            x.sound(),
            x.shape().len() == 2,
            forall|i: int|
                0 <= i < heads@.len() ==> {
                    let h = #[trigger] heads@[i];
                    &&& head_weights_fit(h.w_q, h.w_k, h.w_v, h.w_o, x.shape()[0], x.shape()[1])
                    &&& h.w_o.shape()[1] == heads@[0].w_o.shape()[1]
                },
            hv == heads_val(heads@),
            scale == head_scale::<T::S>(head_dim),
            is_mat(combined, x.shape()[0], heads@[0].w_o.shape()[1]),
            settled::<T>() ==> combined.val() == heads_sum_of::<T>(x.val(), hv, scale, i as nat),
        decreases heads@.len() - i,
    {
        let h = &heads[i];
        proof {
            assert(head_weights_fit(
                heads@[i as int].w_q,
                heads@[i as int].w_k,
                heads@[i as int].w_v,
                heads@[i as int].w_o,
                x.shape()[0],
                x.shape()[1],
            ));
            assert(hv[i as int] == head_val(heads@[i as int]));
        }
        let out = attention_head_inference(x, &h.w_q, &h.w_k, &h.w_v, &h.w_o, head_dim);
        combined = combined.add(&out);
        i += 1;
    }
    combined
}

/// A feed-forward layer of plain projections.
pub fn ffn_inference<T: MatMul + Silu + Mul>(x: &T, w_gate: &T, w_up: &T, w_down: &T) -> (r: T)
    requires
        x.sound(),
        x.shape().len() == 2,
        ffn_weights_fit(*w_gate, *w_up, *w_down, x.shape()[0], x.shape()[1]),
    ensures
        is_mat(r, x.shape()[0], w_down.shape()[1]),
        T::exact() ==> r.val() == ffn_out_of::<T>(
            x.val(),
            FfnWeights { w_gate: w_gate.val(), w_up: w_up.val(), w_down: w_down.val() },
        ),
{
    let gate = x.matmul(w_gate).silu();
    let up = x.matmul(w_up);
    gate.mul(&up).matmul(w_down)
}

/// A block of plain projections.
pub fn block_inference<T: MatMul + Add + MulScalar + Transpose2D + Softmax + CausalMask + Rope + RmsNorm + Silu + Mul>(
    x: &T,
    heads: &[HeadWeights<T>],
    ffn: &FfnWeights<T>,
    head_dim: usize,
) -> (r: T)
    requires
        x.sound(),
        x.shape().len() == 2,
        block_weights_fit(heads@, *ffn, x.shape()[0], x.shape()[1]),
    ensures
        r.sound() && r.shape() == x.shape(),
        settled::<T>() ==> r.val() == block_out_of::<T>(
            x.val(),
            heads_val(heads@),
            ffn_val(*ffn),
            head_scale(head_dim),
        ),
{
    let normed = x.rmsnorm();
    proof {
        assert forall|i: int| 0 <= i < heads@.len() implies {
            let h = #[trigger] heads@[i];
            &&& head_weights_fit(h.w_q, h.w_k, h.w_v, h.w_o, x.shape()[0], x.shape()[1])
            &&& h.w_o.shape()[1] == heads@[0].w_o.shape()[1]
        } by {
            assert(head_fits_at(heads@, x.shape()[0], x.shape()[1], i));
            assert(head_fits_at(heads@, x.shape()[0], x.shape()[1], 0));
        }
        assert(head_fits_at(heads@, x.shape()[0], x.shape()[1], 0));
    }
    let attn_out = multi_head_attention_inference(&normed, heads, head_dim);
    proof {
        assert(attn_out.shape() =~= x.shape());
    }
    let x1 = x.add(&attn_out);
    let normed1 = x1.rmsnorm();
    let ffn_out = ffn_inference(&normed1, &ffn.w_gate, &ffn.w_up, &ffn.w_down);
    proof {
        assert(ffn_out.shape() =~= x.shape());
    }
    x1.add(&ffn_out)
}

/// The weights of a head, arranged as the tape's.
pub open spec fn as_tape_head<X>(w: HeadWeights<X>) -> HeadOf<X> {
    HeadOf { w_q: w.w_q, w_k: w.w_k, w_v: w.w_v, w_o: w.w_o }
}

/// The weights of a block, arranged as the tape's.
pub open spec fn as_tape_block<X>(heads: Seq<HeadWeights<X>>, ffn: FfnWeights<X>) -> BlockOf<X> {
    BlockOf {
        heads: Seq::new(heads.len(), |i: int| as_tape_head(heads[i])),
        gate: ffn.w_gate,
        up: ffn.w_up,
        down: ffn.w_down,
    }
}

/// The heads' sum is the tape's.
proof fn lemma_heads_match<T: Float>(
    x: Array<T>,
    heads: Seq<HeadWeights<Array<T>>>,
    ffn: FfnWeights<Array<T>>,
    scale: T,
    n: nat,
)
    requires
        0 < n <= heads.len(),
    ensures
        heads_sum_bit_of::<Tensor<T>>(x, heads, scale, n) == heads_of(
            restored_acts(x),
            as_tape_block(heads, ffn).heads,
            scale,
            n,
        ),
    decreases n,
{
    if n > 1 {
        lemma_heads_match(x, heads, ffn, scale, (n - 1) as nat);
    }
    assert(as_tape_block(heads, ffn).heads[n - 1] == as_tape_head(heads[n - 1]));
    assert(head_out_bit_of::<Tensor<T>>(x, heads[n - 1], scale) == head_of(
        restored_acts(x),
        as_tape_head(heads[n - 1]),
        scale,
    ));
}

/// On tensors in memory a block of quantised projections gives what the same
/// block gives on a tape.
pub proof fn law_block_matches_tape<T: Float>(
    x: Array<T>,
    heads: Seq<HeadWeights<Array<T>>>,
    ffn: FfnWeights<Array<T>>,
    head_dim: usize,
)
    requires
        heads.len() > 0,
    ensures
        block_out_bit_of::<Tensor<T>>(x, heads, ffn, head_scale(head_dim)) == block_of(
            x,
            as_tape_block(heads, ffn),
            head_dim,
        ),
{
    let w = as_tape_block(heads, ffn);
    let scale = head_scale::<T>(head_dim);
    let normed = rmsnorm_of(x);
    lemma_heads_match(normed, heads, ffn, scale, heads.len());
    assert(w.heads.len() == heads.len());
    assert(block_mid_bit_of::<Tensor<T>>(x, heads, scale) == attended_of(x, w, head_dim));
    let x1 = attended_of(x, w, head_dim);
    let y = rmsnorm_of(x1);
    assert(ffn_saved_bit_of::<Tensor<T>>(y, ffn).h == gated_of(restored_acts(y), w.gate, w.up));
    assert(ffn_out_bit_of::<Tensor<T>>(y, ffn) == ffn_of(y, w.gate, w.up, w.down));
}

} // verus!
