//! The tape: forward values and gradients of every recorded step.
use bitnet::autograd::{Tape, Var};
use bitnet::float::Float;
use bitnet::tensor::Tensor;

/// A 32-bit float that keeps a single NaN.
#[derive(Clone, Copy, Debug, PartialEq, PartialOrd)]
struct F(f32);

/// Wraps a number, with one pattern for NaN.
fn f(x: f32) -> F {
    if x.is_nan() {
        F(f32::NAN)
    } else {
        F(x)
    }
}

impl Float for F {
    fn from_bits(bits: u32) -> F {
        f(f32::from_bits(bits))
    }

    fn to_bits(self) -> u32 {
        self.0.to_bits()
    }

    fn from_count(n: usize) -> F {
        F(n as f32)
    }

    fn from_i8(n: i8) -> F {
        F(n as f32)
    }

    fn to_i8(self) -> i8 {
        self.0 as i8
    }

    fn to_count(self) -> usize {
        self.0 as usize
    }

    fn plus(self, other: F) -> F {
        f(self.0 + other.0)
    }

    fn minus(self, other: F) -> F {
        f(self.0 - other.0)
    }

    fn times(self, other: F) -> F {
        f(self.0 * other.0)
    }

    fn over(self, other: F) -> F {
        f(self.0 / other.0)
    }

    fn pow(self, other: F) -> F {
        f(self.0.powf(other.0))
    }

    fn negate(self) -> F {
        f(-self.0)
    }

    fn abs(self) -> F {
        f(self.0.abs())
    }

    fn round(self) -> F {
        f(self.0.round())
    }

    fn exp(self) -> F {
        f(self.0.exp())
    }

    fn ln(self) -> F {
        f(self.0.ln())
    }

    fn sqrt(self) -> F {
        f(self.0.sqrt())
    }

    fn sin(self) -> F {
        f(self.0.sin())
    }

    fn cos(self) -> F {
        f(self.0.cos())
    }

    fn below(self, other: F) -> bool {
        self.0 < other.0
    }

    fn same(self, other: F) -> bool {
        self.0 == other.0
    }
}

fn tensor(data: Vec<f32>, shape: Vec<usize>) -> Tensor<F> {
    Tensor::from_vec(data.into_iter().map(f).collect(), shape)
}

fn rms_loss(x: &[f32]) -> f32 {
    let n = x.len() as f32;
    let mean_sq: f32 = x.iter().map(|v| v * v).sum::<f32>() / n;
    let rms = (mean_sq + 1e-5).sqrt();
    let inv = 1.0 / rms;
    x.iter().map(|v| v * inv).sum::<f32>() / n
}

fn values(v: Var, tape: &Tape<F>) -> Vec<f32> {
    v.value(tape).data.iter().map(|x| x.0).collect()
}

fn grads(v: Var, tape: &Tape<F>) -> Vec<f32> {
    v.grad(tape).data.iter().map(|x| x.0).collect()
}

#[test]
fn leaf_records_value_and_zero_grad() {
    let mut tape = Tape::<F>::new();
    let x = Var::leaf(&mut tape, tensor(vec![1.0, 2.0, 3.0], vec![3]));

    assert_eq!(tape.len(), 1);
    assert_eq!(values(x, &tape), vec![1.0, 2.0, 3.0]);
    assert_eq!(grads(x, &tape), vec![0.0, 0.0, 0.0]);
    assert_eq!(x.grad(&tape).shape, vec![3]);
}

#[test]
fn multiple_leaves_get_distinct_ids() {
    let mut tape = Tape::<F>::new();
    let a = Var::leaf(&mut tape, Tensor::zeros(vec![2]));
    let b = Var::leaf(&mut tape, Tensor::ones(vec![2]));
    assert_ne!(a.id, b.id);
    assert_eq!(tape.len(), 2);
    assert_eq!(values(b, &tape), vec![1.0, 1.0]);
}

#[test]
fn add_records_correct_forward_value() {
    let mut tape = Tape::<F>::new();
    let a = Var::leaf(&mut tape, tensor(vec![1.0, 2.0, 3.0], vec![3]));
    let b = Var::leaf(&mut tape, tensor(vec![10.0, 20.0, 30.0], vec![3]));
    let c = a.add(&mut tape, b);

    assert_eq!(values(c, &tape), vec![11.0, 22.0, 33.0]);
    assert_eq!(c.value(&tape).shape, vec![3]);
}

#[test]
fn add_appends_exactly_one_node() {
    let mut tape = Tape::<F>::new();
    let a = Var::leaf(&mut tape, Tensor::zeros(vec![2]));
    let b = Var::leaf(&mut tape, Tensor::zeros(vec![2]));
    assert_eq!(tape.len(), 2); // 2 leaves
    let _c = a.add(&mut tape, b);
    assert_eq!(tape.len(), 3); // + 1 add result
}

#[test]
fn backward_through_add_routes_ones_to_each_input() {
    let mut tape = Tape::<F>::new();
    let a = Var::leaf(&mut tape, tensor(vec![1.0, 2.0, 3.0], vec![3]));
    let b = Var::leaf(&mut tape, tensor(vec![10.0, 20.0, 30.0], vec![3]));
    let c = a.add(&mut tape, b);

    tape.backward(c.id);

    assert_eq!(grads(a, &tape), vec![1.0, 1.0, 1.0]);
    assert_eq!(grads(b, &tape), vec![1.0, 1.0, 1.0]);
}

#[test]
fn backward_accumulates_when_a_leaf_is_reused() {
    let mut tape = Tape::<F>::new();
    let a = Var::leaf(&mut tape, tensor(vec![1.0, 2.0], vec![2]));
    let c = a.add(&mut tape, a);

    tape.backward(c.id);

    assert_eq!(grads(a, &tape), vec![2.0, 2.0]);
}

#[test]
fn backward_chains_through_multiple_ops() {
    let mut tape = Tape::<F>::new();
    let a = Var::leaf(&mut tape, Tensor::zeros(vec![2]));
    let b = Var::leaf(&mut tape, Tensor::zeros(vec![2]));
    let c = Var::leaf(&mut tape, Tensor::zeros(vec![2]));
    let d = a.add(&mut tape, b).add(&mut tape, c);

    tape.backward(d.id);

    assert_eq!(grads(a, &tape), vec![1.0, 1.0]);
    assert_eq!(grads(b, &tape), vec![1.0, 1.0]);
    assert_eq!(grads(c, &tape), vec![1.0, 1.0]);
}

#[test]
fn matmul_records_correct_forward_value() {
    let mut tape = Tape::<F>::new();
    let x = Var::leaf(&mut tape, tensor(vec![1.0, 2.0], vec![1, 2]));
    let w = Var::leaf(&mut tape, tensor(vec![3.0, 4.0], vec![2, 1]));
    let y = x.matmul(&mut tape, w);

    assert_eq!(y.value(&tape).shape, vec![1, 1]);
    assert_eq!(values(y, &tape), vec![11.0]);
}

#[test]
fn backward_through_matmul_matches_closed_form() {
    let mut tape = Tape::<F>::new();
    let x = Var::leaf(&mut tape, tensor(vec![1.0, 2.0], vec![1, 2]));
    let w = Var::leaf(&mut tape, tensor(vec![3.0, 4.0], vec![2, 1]));
    let y = x.matmul(&mut tape, w);

    tape.backward(y.id);

    assert_eq!(x.grad(&tape).shape, vec![1, 2]);
    assert_eq!(grads(x, &tape), vec![3.0, 4.0]);
    assert_eq!(w.grad(&tape).shape, vec![2, 1]);
    assert_eq!(grads(w, &tape), vec![1.0, 2.0]);
}

#[test]
fn backward_through_matmul_then_add_chains_correctly() {
    let mut tape = Tape::<F>::new();
    let x = Var::leaf(&mut tape, tensor(vec![1.0, 2.0], vec![1, 2]));
    let w = Var::leaf(&mut tape, tensor(vec![3.0, 4.0], vec![2, 1]));
    let b = Var::leaf(&mut tape, tensor(vec![5.0], vec![1, 1]));
    let y = x.matmul(&mut tape, w).add(&mut tape, b);

    assert_eq!(values(y, &tape), vec![16.0]);

    tape.backward(y.id);

    assert_eq!(grads(x, &tape), vec![3.0, 4.0]);
    assert_eq!(grads(w, &tape), vec![1.0, 2.0]);
    assert_eq!(grads(b, &tape), vec![1.0]);
}

#[test]
fn rope_at_position_zero_is_the_identity() {
    let mut tape = Tape::<F>::new();
    let x_data: Vec<f32> = (0..1 * 4).map(|i| i as f32 + 1.0).collect();
    let x = Var::leaf(&mut tape, tensor(x_data.clone(), vec![1, 4]));
    let y = x.rope(&mut tape);
    assert_eq!(values(y, &tape), x_data);
}

#[test]
fn rope_preserves_per_pair_norm() {
    let mut tape = Tape::<F>::new();
    let seq = 5;
    let head_dim = 8;
    let x_data: Vec<f32> = (0..seq * head_dim)
        .map(|i| ((i as f32) * 0.371).sin())
        .collect();
    let x = Var::leaf(&mut tape, tensor(x_data.clone(), vec![seq, head_dim]));
    let y = x.rope(&mut tape);
    for pos in 0..seq {
        for i in 0..head_dim / 2 {
            let a = x_data[pos * head_dim + 2 * i];
            let b = x_data[pos * head_dim + 2 * i + 1];
            let ya = values(y, &tape)[pos * head_dim + 2 * i];
            let yb = values(y, &tape)[pos * head_dim + 2 * i + 1];
            let n_in = (a * a + b * b).sqrt();
            let n_out = (ya * ya + yb * yb).sqrt();
            assert!(
                (n_in - n_out).abs() < 1e-5,
                "rope changed pair norm at pos {} pair {}: in {} out {}",
                pos,
                i,
                n_in,
                n_out
            );
        }
    }
}

#[test]
fn rope_backward_is_inverse_rotation() {
    let mut tape = Tape::<F>::new();
    let seq = 3;
    let head_dim = 4;
    let x = Var::leaf(
        &mut tape,
        tensor(
            (0..seq * head_dim).map(|i| (i as f32) * 0.1 + 0.5).collect(),
            vec![seq, head_dim],
        ),
    );
    let y = x.rope(&mut tape);
    tape.backward(y.id);

    let half = head_dim / 2;
    for pos in 0..seq {
        for i in 0..half {
            let theta_i = 10000_f32.powf(-(2.0 * i as f32) / head_dim as f32);
            let angle = pos as f32 * theta_i;
            let c = angle.cos();
            let s = angle.sin();
            let want_a = c + s;
            let want_b = -s + c;
            let got_a = grads(x, &tape)[pos * head_dim + 2 * i];
            let got_b = grads(x, &tape)[pos * head_dim + 2 * i + 1];
            assert!(
                (got_a - want_a).abs() < 1e-5 && (got_b - want_b).abs() < 1e-5,
                "rope backward drift at pos {} pair {}: got ({}, {}) want ({}, {})",
                pos,
                i,
                got_a,
                got_b,
                want_a,
                want_b
            );
        }
    }
}

#[test]
fn sub_forward_and_backward() {
    let mut tape = Tape::<F>::new();
    let a = Var::leaf(&mut tape, tensor(vec![5.0, 7.0], vec![2]));
    let b = Var::leaf(&mut tape, tensor(vec![1.0, 2.0], vec![2]));
    let c = a.sub(&mut tape, b);

    assert_eq!(values(c, &tape), vec![4.0, 5.0]);

    tape.backward(c.id);

    assert_eq!(grads(a, &tape), vec![1.0, 1.0]);
    assert_eq!(grads(b, &tape), vec![-1.0, -1.0]);
}

#[test]
fn mul_forward_and_backward() {
    let mut tape = Tape::<F>::new();
    let a = Var::leaf(&mut tape, tensor(vec![2.0, 3.0], vec![2]));
    let b = Var::leaf(&mut tape, tensor(vec![5.0, 7.0], vec![2]));
    let c = a.mul(&mut tape, b);

    assert_eq!(values(c, &tape), vec![10.0, 21.0]);

    tape.backward(c.id);

    assert_eq!(grads(a, &tape), vec![5.0, 7.0]); // = b
    assert_eq!(grads(b, &tape), vec![2.0, 3.0]); // = a
}

#[test]
fn mul_self_gives_two_a_via_grad_accumulation() {
    let mut tape = Tape::<F>::new();
    let a = Var::leaf(&mut tape, tensor(vec![3.0, -4.0], vec![2]));
    let c = a.mul(&mut tape, a);

    assert_eq!(values(c, &tape), vec![9.0, 16.0]);

    tape.backward(c.id);

    assert_eq!(grads(a, &tape), vec![6.0, -8.0]); // = 2a
}

#[test]
fn mean_forward_and_backward() {
    let mut tape = Tape::<F>::new();
    let a = Var::leaf(&mut tape, tensor(vec![1.0, 2.0, 3.0, 4.0], vec![4]));
    let m = a.mean(&mut tape);

    assert_eq!(m.value(&tape).shape, vec![1]);
    assert_eq!(values(m, &tape), vec![2.5]);

    tape.backward(m.id);

    assert_eq!(grads(a, &tape), vec![0.25, 0.25, 0.25, 0.25]);
}

#[test]
fn mse_loss_full_chain_gradients() {
    let mut tape = Tape::<F>::new();
    let x = Var::leaf(&mut tape, tensor(vec![1.0], vec![1, 1]));
    let w = Var::leaf(&mut tape, tensor(vec![3.0], vec![1, 1]));
    let y = Var::leaf(&mut tape, tensor(vec![5.0], vec![1, 1]));

    let pred = x.matmul(&mut tape, w);
    let diff = pred.sub(&mut tape, y);
    let sq = diff.mul(&mut tape, diff);
    let loss = sq.mean(&mut tape);

    assert_eq!(values(loss, &tape), vec![4.0]);

    tape.backward(loss.id);

    let approx = |a: f32, b: f32| (a - b).abs() < 1e-5;
    assert!(
        approx(grads(w, &tape)[0], -4.0),
        "w.grad = {} (expected −4)",
        grads(w, &tape)[0]
    );
    assert!(
        approx(grads(x, &tape)[0], -12.0),
        "x.grad = {} (expected −12)",
        grads(x, &tape)[0]
    );
    assert!(
        approx(grads(y, &tape)[0], 4.0),
        "y.grad = {} (expected +4)",
        grads(y, &tape)[0]
    );
}

#[test]
fn quantise_weights_ste_forward_matches_dequant() {
    let mut tape = Tape::<F>::new();
    let w_input = tensor(vec![2.0, -2.0, 0.0, 0.0], vec![1, 4]);
    let w = Var::leaf(&mut tape, w_input);
    let w_eff = w.quantise_weights_ste(&mut tape);

    assert_eq!(w_eff.value(&tape).shape, vec![1, 4]);
    assert_eq!(values(w_eff, &tape), vec![1.0, -1.0, 0.0, 0.0]); // γ=1, scaled identity
}

#[test]
fn quantise_weights_ste_backward_is_identity() {
    let mut tape = Tape::<F>::new();
    let w = Var::leaf(
        &mut tape,
        tensor(vec![2.0, -2.0, 0.0, 0.0], vec![1, 4]),
    );
    let w_eff = w.quantise_weights_ste(&mut tape);

    tape.backward(w_eff.id);

    assert_eq!(grads(w, &tape), vec![1.0, 1.0, 1.0, 1.0]);
}

#[test]
fn quantise_acts_ste_forward_matches_dequant() {
    let mut tape = Tape::<F>::new();
    let x = Var::leaf(
        &mut tape,
        tensor(vec![1.0, 2.0, -1.0, 0.5], vec![1, 4]),
    );
    let x_eff = x.quantise_acts_ste(&mut tape);

    let s = 2.0_f32 / 127.0;
    let expected = vec![64.0 * s, 127.0 * s, -64.0 * s, 32.0 * s];
    for i in 0..4 {
        assert!(
            (values(x_eff, &tape)[i] - expected[i]).abs() < 1e-5,
            "x_eff[{}] = {}, expected {}",
            i,
            values(x_eff, &tape)[i],
            expected[i]
        );
    }
}

#[test]
fn quantise_acts_ste_backward_is_identity() {
    let mut tape = Tape::<F>::new();
    let x = Var::leaf(
        &mut tape,
        tensor(vec![1.0, 2.0, -1.0, 0.5], vec![1, 4]),
    );
    let x_eff = x.quantise_acts_ste(&mut tape);

    tape.backward(x_eff.id);

    assert_eq!(grads(x, &tape), vec![1.0, 1.0, 1.0, 1.0]);
}

#[test]
fn transpose_2d_var_forward_matches_tensor_transpose() {
    let mut tape = Tape::<F>::new();
    let m = tensor(vec![1.0, 2.0, 3.0, 4.0, 5.0, 6.0], vec![2, 3]);
    let mv = Var::leaf(&mut tape, m.clone());
    let mt = mv.transpose_2d(&mut tape);

    assert_eq!(mt.value(&tape).shape, vec![3, 2]);
    assert_eq!(values(mt, &tape), vec![1.0, 4.0, 2.0, 5.0, 3.0, 6.0]);
}

#[test]
fn transpose_2d_var_backward_routes_grad_correctly() {
    let mut tape = Tape::<F>::new();
    let x = Var::leaf(&mut tape, tensor(vec![1.0, 2.0, 3.0], vec![3, 1]));
    let w = Var::leaf(&mut tape, tensor(vec![10.0, 20.0, 30.0], vec![3, 1]));
    let xt = x.transpose_2d(&mut tape);
    let y = xt.matmul(&mut tape, w);

    tape.backward(y.id);

    assert_eq!(x.grad(&tape).shape, vec![3, 1]);
    assert_eq!(grads(x, &tape), vec![10.0, 20.0, 30.0]);
}

#[test]
fn causal_mask_zeroes_upper_triangle_and_preserves_lower() {
    let mut tape = Tape::<F>::new();
    let x = Var::leaf(
        &mut tape,
        tensor(vec![1.0; 9], vec![3, 3]),
    );
    let y = x.causal_mask(&mut tape);
    for i in 0..3 {
        for j in 0..3 {
            let v = values(y, &tape)[i * 3 + j];
            if j > i {
                assert!(
                    v.is_infinite() && v.is_sign_negative(),
                    "expected -inf at ({},{}), got {}",
                    i,
                    j,
                    v
                );
            } else {
                assert_eq!(v, 1.0, "expected 1.0 at ({},{}), got {}", i, j, v);
            }
        }
    }
}

#[test]
fn causal_mask_backward_zeros_upper_passes_lower() {
    let mut tape = Tape::<F>::new();
    let x = Var::leaf(&mut tape, tensor(vec![1.0; 9], vec![3, 3]));
    let y = x.causal_mask(&mut tape);
    tape.backward(y.id);
    let g = grads(x, &tape);
    for i in 0..3 {
        for j in 0..3 {
            let expected = if j <= i { 1.0 } else { 0.0 };
            assert_eq!(
                g[i * 3 + j],
                expected,
                "grad mismatch at ({},{})",
                i,
                j
            );
        }
    }
}

#[test]
fn causal_mask_then_softmax_zeroes_future_attention() {
    let mut tape = Tape::<F>::new();
    let x = Var::leaf(
        &mut tape,
        tensor(
            vec![1.0, 2.0, 3.0, 4.0, 5.0, 6.0, 7.0, 8.0, 9.0],
            vec![3, 3],
        ),
    );
    let attn = x.causal_mask(&mut tape).softmax(&mut tape);
    for i in 0..3 {
        let mut row_sum = 0.0;
        for j in 0..3 {
            let v = values(attn, &tape)[i * 3 + j];
            if j > i {
                assert_eq!(v, 0.0, "attention leaked to future at ({},{})", i, j);
            }
            row_sum += v;
        }
        assert!(
            (row_sum - 1.0).abs() < 1e-5,
            "row {} sum = {}",
            i,
            row_sum
        );
    }
}

#[test]
fn relu_forward_clamps_negatives() {
    let mut tape = Tape::<F>::new();
    let x = Var::leaf(
        &mut tape,
        tensor(vec![-2.0, -1.0, 0.0, 1.0, 2.0], vec![5]),
    );
    let y = x.relu(&mut tape);
    assert_eq!(values(y, &tape), vec![0.0, 0.0, 0.0, 1.0, 2.0]);
}

#[test]
fn relu_backward_masks_through_positive_only() {
    let mut tape = Tape::<F>::new();
    let x = Var::leaf(
        &mut tape,
        tensor(vec![-2.0, -1.0, 0.0, 1.0, 2.0], vec![5]),
    );
    let y = x.relu(&mut tape);
    tape.backward(y.id);
    assert_eq!(grads(x, &tape), vec![0.0, 0.0, 0.0, 1.0, 1.0]);
}

#[test]
fn softmax_forward_rows_sum_to_one() {
    let mut tape = Tape::<F>::new();
    let x = Var::leaf(
        &mut tape,
        tensor(vec![1.0, 2.0, 3.0, 0.5, -0.5, 1.5], vec![2, 3]),
    );
    let s = x.softmax(&mut tape);
    assert_eq!(s.value(&tape).shape, vec![2, 3]);
    for i in 0..2 {
        let row_sum: f32 = values(s, &tape)[i * 3..(i + 1) * 3].iter().sum();
        assert!((row_sum - 1.0).abs() < 1e-5, "row {} sum = {}", i, row_sum);
    }
}

#[test]
fn softmax_backward_via_mean_loss_is_zero() {
    let mut tape = Tape::<F>::new();
    let x = Var::leaf(
        &mut tape,
        tensor(vec![1.0, 2.0, 3.0, 4.0], vec![1, 4]),
    );
    let m = x.softmax(&mut tape).mean(&mut tape);
    tape.backward(m.id);
    for &v in grads(x, &tape).iter() {
        assert!(
            v.abs() < 1e-5,
            "softmax mean-loss grad should be 0, got {}",
            v
        );
    }
}

#[test]
fn rmsnorm_forward_normalises_to_unit_rms() {
    let mut tape = Tape::<F>::new();
    let x = Var::leaf(
        &mut tape,
        tensor(vec![3.0, 4.0, 0.0, 0.0, 6.0, 8.0], vec![2, 3]),
    );
    let y = x.rmsnorm(&mut tape);

    for i in 0..2 {
        let row = &values(y, &tape)[i * 3..(i + 1) * 3];
        let mean_sq: f32 = row.iter().map(|v| v * v).sum::<f32>() / 3.0;
        let rms = mean_sq.sqrt();
        assert!((rms - 1.0).abs() < 1e-3, "row {} rms = {}", i, rms);
    }
}

#[test]
fn rmsnorm_backward_matches_numerical_gradient() {
    let x_vec = vec![1.0_f32, 2.0, 3.0];
    let h = 1e-3_f32;

    let mut tape = Tape::<F>::new();
    let x = Var::leaf(&mut tape, tensor(x_vec.clone(), vec![1, 3]));
    let m = x.rmsnorm(&mut tape).mean(&mut tape);
    tape.backward(m.id);
    let g = grads(x, &tape);

    for i in 0..x_vec.len() {
        let mut xp = x_vec.clone();
        xp[i] += h;
        let mut xm = x_vec.clone();
        xm[i] -= h;
        let num = (rms_loss(&xp) - rms_loss(&xm)) / (2.0 * h);
        assert!(
            (g[i] - num).abs() < 1e-3,
            "rmsnorm grad[{}] auto = {}, num = {}",
            i,
            g[i],
            num
        );
    }
}

#[test]
fn mul_scalar_var_forward_and_backward() {
    let mut tape = Tape::<F>::new();
    let x = Var::leaf(&mut tape, tensor(vec![1.0, 2.0, -3.0], vec![3]));
    let y = x.mul_scalar(&mut tape, F(3.0));
    assert_eq!(values(y, &tape), vec![3.0, 6.0, -9.0]);

    tape.backward(y.id);
    assert_eq!(grads(x, &tape), vec![3.0, 3.0, 3.0]);
}

#[test]
fn embed_forward_picks_correct_rows() {
    let mut tape = Tape::<F>::new();
    let w = Var::leaf(
        &mut tape,
        tensor(vec![1.0, 2.0, 3.0, 4.0, 5.0, 6.0], vec![3, 2]),
    );
    let y = w.embed(&mut tape, &[1, 0, 2]);
    assert_eq!(y.value(&tape).shape, vec![3, 2]);
    assert_eq!(values(y, &tape), vec![3.0, 4.0, 1.0, 2.0, 5.0, 6.0]);
}

#[test]
fn embed_backward_accumulates_gradient_into_correct_rows() {
    let mut tape = Tape::<F>::new();
    let w = Var::leaf(&mut tape, Tensor::zeros(vec![3, 2]));
    let y = w.embed(&mut tape, &[1, 1, 0]);
    tape.backward(y.id);

    assert_eq!(grads(w, &tape), vec![1.0, 1.0, 2.0, 2.0, 0.0, 0.0,]);
}

#[test]
fn cross_entropy_forward_matches_hand_computation() {
    let mut tape = Tape::<F>::new();
    let logits = Var::leaf(&mut tape, tensor(vec![1.0, 2.0, 3.0], vec![1, 3]));
    let loss = logits.cross_entropy(&mut tape, &[2]);

    let expected = 0.40760595_f32;
    assert!(
        (values(loss, &tape)[0] - expected).abs() < 1e-4,
        "loss = {}, expected {}",
        values(loss, &tape)[0],
        expected
    );
}

#[test]
fn cross_entropy_backward_matches_softmax_minus_onehot() {
    let mut tape = Tape::<F>::new();
    let logits = Var::leaf(&mut tape, tensor(vec![1.0, 2.0, 3.0], vec![1, 3]));
    let loss = logits.cross_entropy(&mut tape, &[2]);
    tape.backward(loss.id);

    let g = grads(logits, &tape);
    let approx = |a: f32, b: f32| (a - b).abs() < 1e-4;
    assert!(approx(g[0], 0.09003), "g[0] = {}", g[0]);
    assert!(approx(g[1], 0.24473), "g[1] = {}", g[1]);
    assert!(approx(g[2], -0.33476), "g[2] = {}", g[2]);
}

#[test]
fn cross_entropy_low_when_confident_and_correct() {
    let mut tape = Tape::<F>::new();
    let logits = Var::leaf(&mut tape, tensor(vec![0.0, 0.0, 10.0], vec![1, 3]));
    let loss = logits.cross_entropy(&mut tape, &[2]);
    assert!(
        values(loss, &tape)[0] < 0.01,
        "confident correct prediction should have near-zero loss, got {}",
        values(loss, &tape)[0]
    );
}

#[test]
fn silu_forward_and_backward() {
    let mut tape = Tape::<F>::new();
    let x = Var::leaf(&mut tape, tensor(vec![0.0, 1.0, -1.0], vec![3]));
    let y = x.silu(&mut tape);
    let sigma = 1.0_f32 / (1.0 + (-1.0_f32).exp());
    assert_eq!(values(y, &tape)[0], 0.0);
    assert!((values(y, &tape)[1] - sigma).abs() < 1e-6);
    assert!((values(y, &tape)[2] - (sigma - 1.0)).abs() < 1e-6);

    tape.backward(y.id);
    assert_eq!(grads(x, &tape)[0], 0.5);
    let slope = sigma * (1.0 + (1.0 - sigma));
    assert!((grads(x, &tape)[1] - slope).abs() < 1e-6);
}

#[test]
fn write_grad_replaces_a_gradient() {
    let mut tape = Tape::<F>::new();
    let x = Var::leaf(&mut tape, tensor(vec![1.0, 2.0], vec![2]));
    tape.write_grad(x.id, tensor(vec![5.0, -7.0], vec![2]));
    assert_eq!(grads(x, &tape), vec![5.0, -7.0]);
    assert_eq!(values(x, &tape), vec![1.0, 2.0]);
}

#[test]
fn backward_starts_from_ones_at_the_output() {
    let mut tape = Tape::<F>::new();
    let x = Var::leaf(&mut tape, tensor(vec![1.0, 2.0], vec![2]));
    let y = x.mul_scalar(&mut tape, F(2.0));
    let unrelated = Var::leaf(&mut tape, tensor(vec![3.0], vec![1]));
    tape.backward(y.id);
    assert_eq!(grads(y, &tape), vec![1.0, 1.0]);
    assert_eq!(grads(unrelated, &tape), vec![0.0]);
}
