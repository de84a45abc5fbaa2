//! The generic layers on host tensors, held against finite differences and the tape.
use bitnet::autograd::{Tape, Var};
use bitnet::block::{transformer_block, AttentionHeadVars, BlockWeights};
use bitnet::device::{
    add_backward, attention_head_backward, attention_head_backward_bitnet,
    attention_head_forward_save, attention_head_forward_save_bitnet, block_backward,
    block_backward_bitnet, block_forward_save, block_forward_save_bitnet, block_inference,
    causal_mask_backward, chained_matmul, cross_entropy_backward, cross_entropy_forward_save,
    ffn_backward, ffn_forward_save, matmul_backward, mul_backward, mul_scalar_backward,
    rmsnorm_backward, rope_backward, silu_backward, softmax_backward, FfnWeights, HeadWeights,
};
use bitnet::float::Float;
use bitnet::tensor::Tensor;

/// A 32-bit float that keeps a single NaN.
#[derive(Clone, Copy, Debug, PartialEq, PartialOrd)]
struct F(f32);

/// Wraps a number, with one pattern for NaN.
fn f(x: f32) -> F {
    if x.is_nan() {
        F(f32::NAN)
    } else {
        F(x)
    }
}

impl Float for F {
    fn from_bits(bits: u32) -> F {
        f(f32::from_bits(bits))
    }

    fn to_bits(self) -> u32 {
        self.0.to_bits()
    }

    fn from_count(n: usize) -> F {
        F(n as f32)
    }

    fn from_i8(n: i8) -> F {
        F(n as f32)
    }

    fn to_i8(self) -> i8 {
        self.0 as i8
    }

    fn to_count(self) -> usize {
        self.0 as usize
    }

    fn plus(self, other: F) -> F {
        f(self.0 + other.0)
    }

    fn minus(self, other: F) -> F {
        f(self.0 - other.0)
    }

    fn times(self, other: F) -> F {
        f(self.0 * other.0)
    }

    fn over(self, other: F) -> F {
        f(self.0 / other.0)
    }

    fn pow(self, other: F) -> F {
        f(self.0.powf(other.0))
    }

    fn negate(self) -> F {
        f(-self.0)
    }

    fn abs(self) -> F {
        f(self.0.abs())
    }

    fn round(self) -> F {
        f(self.0.round())
    }

    fn exp(self) -> F {
        f(self.0.exp())
    }

    fn ln(self) -> F {
        f(self.0.ln())
    }

    fn sqrt(self) -> F {
        f(self.0.sqrt())
    }

    fn sin(self) -> F {
        f(self.0.sin())
    }

    fn cos(self) -> F {
        f(self.0.cos())
    }

    fn below(self, other: F) -> bool {
        self.0 < other.0
    }

    fn same(self, other: F) -> bool {
        self.0 == other.0
    }
}

fn tensor(data: Vec<f32>, shape: Vec<usize>) -> Tensor<F> {
    Tensor::from_vec(data.into_iter().map(f).collect(), shape)
}

fn nums(t: &Tensor<F>) -> Vec<f32> {
    t.data.iter().map(|x| x.0).collect()
}

fn agree(label: &str, truth: &Tensor<F>, helper: &Tensor<F>) {
    assert_eq!(truth.shape, helper.shape, "{label}: shape diverged");
    for (i, (&t, &h)) in nums(truth).iter().zip(&nums(helper)).enumerate() {
        assert!(
            (t - h).abs() <= 1e-4 + 1e-4 * t.abs(),
            "{label} mismatch at idx {i}: autograd = {t}, helper = {h}"
        );
    }
}

fn make_block_weights_cpu(
    hidden: usize,
    head_dim: usize,
    n_heads: usize,
    ffn: usize,
) -> (Vec<HeadWeights<Tensor<F>>>, FfnWeights<Tensor<F>>) {
    let mk = |rows: usize, cols: usize, seed: f32| {
        tensor(
            (0..rows * cols)
                .map(|i| (i as f32 * seed).sin() * 0.3)
                .collect(),
            vec![rows, cols],
        )
    };
    let mut heads = Vec::with_capacity(n_heads);
    for h in 0..n_heads {
        let off = (h as f32 + 1.0) * 0.013;
        heads.push(HeadWeights {
            w_q: mk(hidden, head_dim, 0.061 + off),
            w_k: mk(hidden, head_dim, 0.097 + off),
            w_v: mk(hidden, head_dim, 0.131 + off),
            w_o: mk(head_dim, hidden, 0.169 + off),
        });
    }
    let ffn = FfnWeights {
        w_gate: mk(hidden, ffn, 0.211),
        w_up: mk(hidden, ffn, 0.241),
        w_down: mk(ffn, hidden, 0.277),
    };
    (heads, ffn)
}

#[test]
fn chained_matmul_works_on_cpu_tensor() {
    let a = tensor(vec![1.0, 2.0, 3.0, 4.0], vec![2, 2]);
    let b = tensor(vec![5.0, 6.0, 7.0, 8.0], vec![2, 2]);
    let c = tensor(vec![1.0, 0.0, 0.0, 1.0], vec![2, 2]);
    let result = chained_matmul(&a, &b, &c);
    assert_eq!(result.shape, vec![2, 2]);
    assert_eq!(nums(&result), vec![19.0, 22.0, 43.0, 50.0]);
}

#[test]
fn matmul_backward_matches_finite_difference_on_cpu() {
    let m = 3usize;
    let k = 4usize;
    let n = 5usize;
    let a_data: Vec<f32> = (0..m * k).map(|i| (i as f32 * 0.13).sin()).collect();
    let b_data: Vec<f32> = (0..k * n).map(|i| (i as f32 * 0.21).cos()).collect();
    let g_data: Vec<f32> = (0..m * n).map(|i| (i as f32 * 0.07).sin() + 0.1).collect();

    let a = tensor(a_data.clone(), vec![m, k]);
    let b = tensor(b_data.clone(), vec![k, n]);
    let grad_c = tensor(g_data.clone(), vec![m, n]);

    let (grad_a, grad_b) = matmul_backward(&grad_c, &a, &b);
    assert_eq!(grad_a.shape, a.shape);
    assert_eq!(grad_b.shape, b.shape);

    let loss = |a_v: &[f32], b_v: &[f32]| -> f32 {
        let a_t = tensor(a_v.to_vec(), vec![m, k]);
        let b_t = tensor(b_v.to_vec(), vec![k, n]);
        let c_t = a_t.matmul(&b_t);
        nums(&c_t).iter().zip(&nums(&grad_c)).map(|(c, g)| c * g).sum()
    };

    let h: f32 = 1e-3;
    for idx in 0..m * k {
        let mut a_plus = a_data.clone();
        a_plus[idx] += h;
        let mut a_minus = a_data.clone();
        a_minus[idx] -= h;
        let fd = (loss(&a_plus, &b_data) - loss(&a_minus, &b_data)) / (2.0 * h);
        let analytic = grad_a.data[idx].0;
        let abs = (fd - analytic).abs();
        assert!(
            abs <= 1e-3 + 1e-3 * analytic.abs(),
            "grad_a mismatch at idx {idx}: fd = {fd}, analytic = {analytic}"
        );
    }
    for idx in 0..k * n {
        let mut b_plus = b_data.clone();
        b_plus[idx] += h;
        let mut b_minus = b_data.clone();
        b_minus[idx] -= h;
        let fd = (loss(&a_data, &b_plus) - loss(&a_data, &b_minus)) / (2.0 * h);
        let analytic = grad_b.data[idx].0;
        let abs = (fd - analytic).abs();
        assert!(
            abs <= 1e-3 + 1e-3 * analytic.abs(),
            "grad_b mismatch at idx {idx}: fd = {fd}, analytic = {analytic}"
        );
    }
}

#[test]
fn add_backward_propagates_grad_unchanged_on_cpu() {
    let n = 7usize;
    let g_data: Vec<f32> = (0..n).map(|i| (i as f32 * 0.31).sin() + 0.4).collect();
    let grad_c = tensor(g_data.clone(), vec![n]);
    let (grad_a, grad_b) = add_backward(&grad_c);
    assert_eq!(grad_a.shape, grad_c.shape);
    assert_eq!(grad_b.shape, grad_c.shape);
    for (i, &g) in g_data.iter().enumerate() {
        assert_eq!(grad_a.data[i].0, g, "grad_a[{i}] not identity");
        assert_eq!(grad_b.data[i].0, g, "grad_b[{i}] not identity");
    }
}

#[test]
fn mul_backward_matches_finite_difference_on_cpu() {
    let n = 6usize;
    let a_data: Vec<f32> = (0..n).map(|i| (i as f32 * 0.27).sin()).collect();
    let b_data: Vec<f32> = (0..n).map(|i| (i as f32 * 0.41).cos()).collect();
    let g_data: Vec<f32> = (0..n).map(|i| (i as f32 * 0.13).sin() + 0.2).collect();
    let a = tensor(a_data.clone(), vec![n]);
    let b = tensor(b_data.clone(), vec![n]);
    let grad_c = tensor(g_data.clone(), vec![n]);
    let (grad_a, grad_b) = mul_backward(&grad_c, &a, &b);

    let loss = |a_v: &[f32], b_v: &[f32]| -> f32 {
        a_v.iter()
            .zip(b_v)
            .zip(&g_data)
            .map(|((x, y), g)| g * (x * y))
            .sum()
    };
    let h: f32 = 1e-3;
    for idx in 0..n {
        let (mut ap, mut am) = (a_data.clone(), a_data.clone());
        ap[idx] += h;
        am[idx] -= h;
        let fd = (loss(&ap, &b_data) - loss(&am, &b_data)) / (2.0 * h);
        let analytic = grad_a.data[idx].0;
        assert!(
            (fd - analytic).abs() <= 1e-3 + 1e-3 * analytic.abs(),
            "grad_a mismatch at idx {idx}: fd = {fd}, analytic = {analytic}"
        );
        let (mut bp, mut bm) = (b_data.clone(), b_data.clone());
        bp[idx] += h;
        bm[idx] -= h;
        let fd = (loss(&a_data, &bp) - loss(&a_data, &bm)) / (2.0 * h);
        let analytic = grad_b.data[idx].0;
        assert!(
            (fd - analytic).abs() <= 1e-3 + 1e-3 * analytic.abs(),
            "grad_b mismatch at idx {idx}: fd = {fd}, analytic = {analytic}"
        );
    }
}

#[test]
fn mul_scalar_backward_matches_finite_difference_on_cpu() {
    let n = 5usize;
    let s_scalar: f32 = 2.5;
    let a_data: Vec<f32> = (0..n).map(|i| (i as f32 * 0.19).sin()).collect();
    let g_data: Vec<f32> = (0..n).map(|i| (i as f32 * 0.07).cos() + 0.3).collect();
    let grad_c = tensor(g_data.clone(), vec![n]);
    let grad_a = mul_scalar_backward(&grad_c, F(s_scalar));

    let loss = |a_v: &[f32]| -> f32 {
        a_v.iter()
            .zip(&g_data)
            .map(|(x, g)| g * (x * s_scalar))
            .sum()
    };
    let h: f32 = 1e-3;
    for idx in 0..n {
        let (mut ap, mut am) = (a_data.clone(), a_data.clone());
        ap[idx] += h;
        am[idx] -= h;
        let fd = (loss(&ap) - loss(&am)) / (2.0 * h);
        let analytic = grad_a.data[idx].0;
        assert!(
            (fd - analytic).abs() <= 1e-3 + 1e-3 * analytic.abs(),
            "grad_a mismatch at idx {idx}: fd = {fd}, analytic = {analytic}"
        );
    }
}

#[test]
fn silu_backward_matches_finite_difference_on_cpu() {
    let n = 8usize;
    let x_data: Vec<f32> = (0..n).map(|i| (i as f32 - 3.5) * 0.6).collect();
    let g_data: Vec<f32> = (0..n).map(|i| (i as f32 * 0.23).sin() + 0.5).collect();
    let x = tensor(x_data.clone(), vec![n]);
    let grad_y = tensor(g_data.clone(), vec![n]);
    let grad_x = silu_backward(&grad_y, &x);

    let loss = |x_v: &[f32]| -> f32 {
        let xt = tensor(x_v.to_vec(), vec![n]);
        let yt = xt.silu();
        nums(&yt).iter().zip(&g_data).map(|(y, g)| g * y).sum()
    };
    let h: f32 = 1e-3;
    for idx in 0..n {
        let (mut xp, mut xm) = (x_data.clone(), x_data.clone());
        xp[idx] += h;
        xm[idx] -= h;
        let fd = (loss(&xp) - loss(&xm)) / (2.0 * h);
        let analytic = grad_x.data[idx].0;
        assert!(
            (fd - analytic).abs() <= 1e-3 + 1e-3 * analytic.abs(),
            "silu_backward mismatch at idx {idx}: fd = {fd}, analytic = {analytic}"
        );
    }
}

#[test]
fn softmax_backward_matches_finite_difference_on_cpu() {
    let m = 3usize;
    let n = 4usize;
    let x_data: Vec<f32> = (0..m * n).map(|i| (i as f32 * 0.37).sin()).collect();
    let g_data: Vec<f32> = (0..m * n).map(|i| (i as f32 * 0.21).cos() + 0.3).collect();
    let x = tensor(x_data.clone(), vec![m, n]);
    let s_out = x.softmax();
    let grad_y = tensor(g_data.clone(), vec![m, n]);
    let grad_x = softmax_backward(&grad_y, &s_out);
    assert_eq!(grad_x.shape, x.shape);

    let loss = |x_v: &[f32]| -> f32 {
        let xt = tensor(x_v.to_vec(), vec![m, n]);
        let st = xt.softmax();
        nums(&st).iter().zip(&g_data).map(|(s, g)| g * s).sum()
    };
    let h: f32 = 1e-3;
    for idx in 0..m * n {
        let (mut xp, mut xm) = (x_data.clone(), x_data.clone());
        xp[idx] += h;
        xm[idx] -= h;
        let fd = (loss(&xp) - loss(&xm)) / (2.0 * h);
        let analytic = grad_x.data[idx].0;
        assert!(
            (fd - analytic).abs() <= 1e-3 + 1e-3 * analytic.abs(),
            "softmax_backward mismatch at idx {idx}: fd = {fd}, analytic = {analytic}"
        );
    }
}

#[test]
fn causal_mask_backward_zeros_upper_triangle_on_cpu() {
    let n = 5usize;
    let g_data: Vec<f32> = (0..n * n).map(|i| (i as f32 * 0.17).sin() + 0.2).collect();
    let grad_y = tensor(g_data.clone(), vec![n, n]);
    let grad_x = causal_mask_backward(&grad_y);
    assert_eq!(grad_x.shape, vec![n, n]);
    for i in 0..n {
        for j in 0..n {
            let want = if j > i { 0.0 } else { g_data[i * n + j] };
            assert_eq!(
                grad_x.data[i * n + j].0,
                want,
                "causal_mask_backward at ({i},{j}): want {want}, got {}",
                grad_x.data[i * n + j].0
            );
        }
    }
}

#[test]
fn rmsnorm_backward_matches_finite_difference_on_cpu() {
    let m = 3usize;
    let n = 4usize;
    let x_data: Vec<f32> = (0..m * n)
        .map(|i| (i as f32 * 0.43 + 0.5).sin() * 1.5)
        .collect();
    let g_data: Vec<f32> = (0..m * n).map(|i| (i as f32 * 0.31).cos() + 0.4).collect();
    let x = tensor(x_data.clone(), vec![m, n]);
    let grad_y = tensor(g_data.clone(), vec![m, n]);
    let grad_x = rmsnorm_backward(&grad_y, &x);
    assert_eq!(grad_x.shape, x.shape);

    let loss = |x_v: &[f32]| -> f32 {
        let xt = tensor(x_v.to_vec(), vec![m, n]);
        let yt = xt.rmsnorm();
        nums(&yt).iter().zip(&g_data).map(|(y, g)| g * y).sum()
    };
    let h: f32 = 1e-3;
    for idx in 0..m * n {
        let (mut xp, mut xm) = (x_data.clone(), x_data.clone());
        xp[idx] += h;
        xm[idx] -= h;
        let fd = (loss(&xp) - loss(&xm)) / (2.0 * h);
        let analytic = grad_x.data[idx].0;
        assert!(
            (fd - analytic).abs() <= 2e-3 + 2e-3 * analytic.abs(),
            "rmsnorm_backward mismatch at idx {idx}: fd = {fd}, analytic = {analytic}"
        );
    }
}

#[test]
fn rope_backward_matches_finite_difference_on_cpu() {
    let seq = 4usize;
    let head_dim = 4usize;
    let n = seq * head_dim;
    let x_data: Vec<f32> = (0..n).map(|i| (i as f32 * 0.29).sin()).collect();
    let g_data: Vec<f32> = (0..n).map(|i| (i as f32 * 0.17).cos() + 0.3).collect();
    let grad_y = tensor(g_data.clone(), vec![seq, head_dim]);
    let grad_x = rope_backward(&grad_y);
    assert_eq!(grad_x.shape, vec![seq, head_dim]);

    let loss = |x_v: &[f32]| -> f32 {
        let xt = tensor(x_v.to_vec(), vec![seq, head_dim]);
        let yt = xt.rope();
        nums(&yt).iter().zip(&g_data).map(|(y, g)| g * y).sum()
    };
    let h: f32 = 1e-3;
    for idx in 0..n {
        let (mut xp, mut xm) = (x_data.clone(), x_data.clone());
        xp[idx] += h;
        xm[idx] -= h;
        let fd = (loss(&xp) - loss(&xm)) / (2.0 * h);
        let analytic = grad_x.data[idx].0;
        assert!(
            (fd - analytic).abs() <= 1e-3 + 1e-3 * analytic.abs(),
            "rope_backward mismatch at idx {idx}: fd = {fd}, analytic = {analytic}"
        );
    }
}

#[test]
fn attention_head_backward_bitnet_matches_autograd_ground_truth() {
    let head_dim = 4usize;
    let seq = 6usize;
    let hidden = 12usize;
    let x_data: Vec<f32> = (0..seq * hidden)
        .map(|i| (i as f32 * 0.071).sin() * 0.7)
        .collect();
    let w_q_data: Vec<f32> = (0..hidden * head_dim)
        .map(|i| (i as f32 * 0.103).cos() * 0.4)
        .collect();
    let w_k_data: Vec<f32> = (0..hidden * head_dim)
        .map(|i| (i as f32 * 0.137).sin() * 0.4)
        .collect();
    let w_v_data: Vec<f32> = (0..hidden * head_dim)
        .map(|i| (i as f32 * 0.181 + 0.2).cos() * 0.4)
        .collect();
    let w_o_data: Vec<f32> = (0..head_dim * hidden)
        .map(|i| (i as f32 * 0.211).sin() * 0.4)
        .collect();

    let mut tape = Tape::<F>::new();
    let x_var = Var::leaf(&mut tape, tensor(x_data.clone(), vec![seq, hidden]));
    let w_q_var = Var::leaf(
        &mut tape,
        tensor(w_q_data.clone(), vec![hidden, head_dim]),
    );
    let w_k_var = Var::leaf(
        &mut tape,
        tensor(w_k_data.clone(), vec![hidden, head_dim]),
    );
    let w_v_var = Var::leaf(
        &mut tape,
        tensor(w_v_data.clone(), vec![hidden, head_dim]),
    );
    let w_o_var = Var::leaf(
        &mut tape,
        tensor(w_o_data.clone(), vec![head_dim, hidden]),
    );
    let x_eff = x_var.quantise_acts_ste(&mut tape);
    let w_q_eff = w_q_var.quantise_weights_ste(&mut tape);
    let w_k_eff = w_k_var.quantise_weights_ste(&mut tape);
    let w_v_eff = w_v_var.quantise_weights_ste(&mut tape);
    let w_o_eff = w_o_var.quantise_weights_ste(&mut tape);
    let q_v = x_eff.matmul(&mut tape, w_q_eff).rope(&mut tape);
    let k_v = x_eff.matmul(&mut tape, w_k_eff).rope(&mut tape);
    let v_v = x_eff.matmul(&mut tape, w_v_eff);
    let scale = 1.0_f32 / (head_dim as f32).sqrt();
    let k_t = k_v.transpose_2d(&mut tape);
    let scores_v = q_v
        .matmul(&mut tape, k_t)
        .mul_scalar(&mut tape, F(scale))
        .causal_mask(&mut tape);
    let attn_v = scores_v.softmax(&mut tape);
    let ctx_v = attn_v.matmul(&mut tape, v_v);
    let out_v = ctx_v.quantise_acts_ste(&mut tape).matmul(&mut tape, w_o_eff);
    tape.backward(out_v.id);
    let grad_x_truth = x_var.grad(&tape);
    let grad_w_q_truth = w_q_var.grad(&tape);
    let grad_w_k_truth = w_k_var.grad(&tape);
    let grad_w_v_truth = w_v_var.grad(&tape);
    let grad_w_o_truth = w_o_var.grad(&tape);

    let x = tensor(x_data, vec![seq, hidden]);
    let w_q = tensor(w_q_data, vec![hidden, head_dim]);
    let w_k = tensor(w_k_data, vec![hidden, head_dim]);
    let w_v = tensor(w_v_data, vec![hidden, head_dim]);
    let w_o = tensor(w_o_data, vec![head_dim, hidden]);
    let (out, saved) = attention_head_forward_save_bitnet(&x, &w_q, &w_k, &w_v, &w_o, head_dim);
    let grad_out = Tensor::ones(out.shape.clone());
    let grads =
        attention_head_backward_bitnet(&grad_out, &x, &saved, &w_q, &w_k, &w_v, &w_o, head_dim);

    agree("grad_x", &grad_x_truth, &grads.grad_x);
    agree("grad_w_q", &grad_w_q_truth, &grads.grad_w_q);
    agree("grad_w_k", &grad_w_k_truth, &grads.grad_w_k);
    agree("grad_w_v", &grad_w_v_truth, &grads.grad_w_v);
    agree("grad_w_o", &grad_w_o_truth, &grads.grad_w_o);
}

#[test]
fn attention_head_backward_matches_autograd_ground_truth() {
    let head_dim = 4usize;
    let seq = 6usize;
    let hidden = 12usize;

    let x_data: Vec<f32> = (0..seq * hidden)
        .map(|i| (i as f32 * 0.071).sin() * 0.7)
        .collect();
    let w_q_data: Vec<f32> = (0..hidden * head_dim)
        .map(|i| (i as f32 * 0.103).cos() * 0.4)
        .collect();
    let w_k_data: Vec<f32> = (0..hidden * head_dim)
        .map(|i| (i as f32 * 0.137).sin() * 0.4)
        .collect();
    let w_v_data: Vec<f32> = (0..hidden * head_dim)
        .map(|i| (i as f32 * 0.181 + 0.2).cos() * 0.4)
        .collect();
    let w_o_data: Vec<f32> = (0..head_dim * hidden)
        .map(|i| (i as f32 * 0.211).sin() * 0.4)
        .collect();

    let mut tape = Tape::<F>::new();
    let x_var = Var::leaf(&mut tape, tensor(x_data.clone(), vec![seq, hidden]));
    let w_q_var = Var::leaf(
        &mut tape,
        tensor(w_q_data.clone(), vec![hidden, head_dim]),
    );
    let w_k_var = Var::leaf(
        &mut tape,
        tensor(w_k_data.clone(), vec![hidden, head_dim]),
    );
    let w_v_var = Var::leaf(
        &mut tape,
        tensor(w_v_data.clone(), vec![hidden, head_dim]),
    );
    let w_o_var = Var::leaf(
        &mut tape,
        tensor(w_o_data.clone(), vec![head_dim, hidden]),
    );

    let q_v = x_var.matmul(&mut tape, w_q_var).rope(&mut tape);
    let k_v = x_var.matmul(&mut tape, w_k_var).rope(&mut tape);
    let v_v = x_var.matmul(&mut tape, w_v_var);
    let scale = 1.0_f32 / (head_dim as f32).sqrt();
    let k_t = k_v.transpose_2d(&mut tape);
    let scores_v = q_v
        .matmul(&mut tape, k_t)
        .mul_scalar(&mut tape, F(scale))
        .causal_mask(&mut tape);
    let attn_v = scores_v.softmax(&mut tape);
    let ctx_v = attn_v.matmul(&mut tape, v_v);
    let out_v = ctx_v.matmul(&mut tape, w_o_var);
    tape.backward(out_v.id);

    let grad_x_truth = x_var.grad(&tape);
    let grad_w_q_truth = w_q_var.grad(&tape);
    let grad_w_k_truth = w_k_var.grad(&tape);
    let grad_w_v_truth = w_v_var.grad(&tape);
    let grad_w_o_truth = w_o_var.grad(&tape);

    let x = tensor(x_data, vec![seq, hidden]);
    let w_q = tensor(w_q_data, vec![hidden, head_dim]);
    let w_k = tensor(w_k_data, vec![hidden, head_dim]);
    let w_v = tensor(w_v_data, vec![hidden, head_dim]);
    let w_o = tensor(w_o_data, vec![head_dim, hidden]);
    let (out, saved) = attention_head_forward_save(&x, &w_q, &w_k, &w_v, &w_o, head_dim);
    let out_truth = out_v.value(&tape);
    assert_eq!(out.shape, out_truth.shape);
    for (i, (&a, &b)) in nums(&out).iter().zip(&nums(&out_truth)).enumerate() {
        assert!(
            (a - b).abs() <= 1e-5 + 1e-5 * a.abs(),
            "forward mismatch at idx {i}: helper = {a}, autograd = {b}"
        );
    }
    let grad_out = Tensor::ones(out.shape.clone());
    let grads =
        attention_head_backward(&grad_out, &x, &saved, &w_q, &w_k, &w_v, &w_o, head_dim);

    agree("grad_x", &grad_x_truth, &grads.grad_x);
    agree("grad_w_q", &grad_w_q_truth, &grads.grad_w_q);
    agree("grad_w_k", &grad_w_k_truth, &grads.grad_w_k);
    agree("grad_w_v", &grad_w_v_truth, &grads.grad_w_v);
    agree("grad_w_o", &grad_w_o_truth, &grads.grad_w_o);
}

#[test]
fn ffn_backward_matches_autograd_ground_truth() {
    let seq = 5usize;
    let hidden = 8usize;
    let ffn = 16usize;

    let x_data: Vec<f32> = (0..seq * hidden)
        .map(|i| (i as f32 * 0.073).sin() * 0.6)
        .collect();
    let w_gate_data: Vec<f32> = (0..hidden * ffn)
        .map(|i| (i as f32 * 0.107).cos() * 0.4)
        .collect();
    let w_up_data: Vec<f32> = (0..hidden * ffn)
        .map(|i| (i as f32 * 0.139).sin() * 0.4)
        .collect();
    let w_down_data: Vec<f32> = (0..ffn * hidden)
        .map(|i| (i as f32 * 0.173).cos() * 0.4)
        .collect();

    let mut tape = Tape::<F>::new();
    let x_var = Var::leaf(&mut tape, tensor(x_data.clone(), vec![seq, hidden]));
    let w_gate_var = Var::leaf(
        &mut tape,
        tensor(w_gate_data.clone(), vec![hidden, ffn]),
    );
    let w_up_var = Var::leaf(
        &mut tape,
        tensor(w_up_data.clone(), vec![hidden, ffn]),
    );
    let w_down_var = Var::leaf(
        &mut tape,
        tensor(w_down_data.clone(), vec![ffn, hidden]),
    );
    let gate_v = x_var.matmul(&mut tape, w_gate_var).silu(&mut tape);
    let up_v = x_var.matmul(&mut tape, w_up_var);
    let h_v = gate_v.mul(&mut tape, up_v);
    let out_v = h_v.matmul(&mut tape, w_down_var);
    tape.backward(out_v.id);
    let grad_x_truth = x_var.grad(&tape);
    let grad_w_gate_truth = w_gate_var.grad(&tape);
    let grad_w_up_truth = w_up_var.grad(&tape);
    let grad_w_down_truth = w_down_var.grad(&tape);

    let x = tensor(x_data, vec![seq, hidden]);
    let w_gate = tensor(w_gate_data, vec![hidden, ffn]);
    let w_up = tensor(w_up_data, vec![hidden, ffn]);
    let w_down = tensor(w_down_data, vec![ffn, hidden]);
    let (out, saved) = ffn_forward_save(&x, &w_gate, &w_up, &w_down);
    let grad_out = Tensor::ones(out.shape.clone());
    let grads = ffn_backward(&grad_out, &x, &saved, &w_gate, &w_up, &w_down);

    let out_truth = out_v.value(&tape);
    for (i, (&a, &b)) in nums(&out).iter().zip(&nums(&out_truth)).enumerate() {
        assert!(
            (a - b).abs() <= 1e-5 + 1e-5 * a.abs(),
            "forward mismatch at idx {i}: helper = {a}, autograd = {b}"
        );
    }
    agree("grad_x", &grad_x_truth, &grads.grad_x);
    agree("grad_w_gate", &grad_w_gate_truth, &grads.grad_w_gate);
    agree("grad_w_up", &grad_w_up_truth, &grads.grad_w_up);
    agree("grad_w_down", &grad_w_down_truth, &grads.grad_w_down);
}

#[test]
fn block_forward_save_output_equals_block_inference() {
    let hidden = 8usize;
    let head_dim = 4usize;
    let n_heads = 2usize;
    let ffn_dim = 16usize;
    let seq = 5usize;
    let x = tensor(
        (0..seq * hidden)
            .map(|i| (i as f32 * 0.073).sin() * 0.6)
            .collect(),
        vec![seq, hidden],
    );
    let (heads, ffn) = make_block_weights_cpu(hidden, head_dim, n_heads, ffn_dim);
    let out_inference = block_inference(&x, &heads, &ffn, head_dim);
    let (out_save, _saved) = block_forward_save(&x, &heads, &ffn, head_dim);
    assert_eq!(out_inference.shape, out_save.shape);
    for (i, (&a, &b)) in nums(&out_inference).iter().zip(&nums(&out_save)).enumerate() {
        assert_eq!(
            a, b,
            "block_forward_save diverged from block_inference at idx {i}: \
             inference = {a}, save = {b}"
        );
    }
}

#[test]
fn cross_entropy_matches_autograd_ground_truth() {
    let seq = 6usize;
    let vocab = 11usize;
    let logits_data: Vec<f32> = (0..seq * vocab)
        .map(|i| (i as f32 * 0.083).sin() * 1.5)
        .collect();
    let targets: Vec<usize> = (0..seq).map(|i| (i * 3 + 1) % vocab).collect();

    let mut tape = Tape::<F>::new();
    let logits_var = Var::leaf(
        &mut tape,
        tensor(logits_data.clone(), vec![seq, vocab]),
    );
    let loss_var = logits_var.cross_entropy(&mut tape, &targets);
    tape.backward(loss_var.id);
    let loss_truth = loss_var.value(&tape).data[0].0;
    let grad_logits_truth = logits_var.grad(&tape);

    let logits = tensor(logits_data, vec![seq, vocab]);
    let (loss_helper, softmax_saved) = cross_entropy_forward_save(&logits, &targets);
    let grad_logits_helper = cross_entropy_backward(&softmax_saved, &targets, seq);

    assert!(
        (loss_helper.0 - loss_truth).abs() <= 1e-5 + 1e-5 * loss_truth.abs(),
        "loss mismatch: helper = {loss_helper:?}, autograd = {loss_truth}"
    );
    assert_eq!(grad_logits_helper.shape, grad_logits_truth.shape);
    for (i, (&h, &t)) in nums(&grad_logits_helper).iter()
        .zip(&nums(&grad_logits_truth))
        .enumerate()
    {
        assert!(
            (h - t).abs() <= 1e-5 + 1e-5 * t.abs(),
            "grad mismatch at idx {i}: helper = {h}, autograd = {t}"
        );
    }
}

/// The block built by hand and the block on the tape give the same gradients.
#[test]
fn block_backward_bitnet_matches_the_tape() {
    let (hidden, head_dim, n_heads, ffn_dim, seq) = (8usize, 4usize, 2usize, 16usize, 5usize);
    let x = tensor(
        (0..seq * hidden).map(|i| (i as f32 * 0.073).sin() * 0.6).collect(),
        vec![seq, hidden],
    );
    let (heads, ffn) = make_block_weights_cpu(hidden, head_dim, n_heads, ffn_dim);

    let mut tape = Tape::<F>::new();
    let x_var = Var::leaf(&mut tape, x.clone());
    let w = BlockWeights {
        heads: heads
            .iter()
            .map(|h| AttentionHeadVars {
                w_q: Var::leaf(&mut tape, h.w_q.clone()),
                w_k: Var::leaf(&mut tape, h.w_k.clone()),
                w_v: Var::leaf(&mut tape, h.w_v.clone()),
                w_o: Var::leaf(&mut tape, h.w_o.clone()),
            })
            .collect(),
        ffn_gate_w: Var::leaf(&mut tape, ffn.w_gate.clone()),
        ffn_up_w: Var::leaf(&mut tape, ffn.w_up.clone()),
        ffn_down_w: Var::leaf(&mut tape, ffn.w_down.clone()),
    };
    let y = transformer_block(&mut tape, x_var, &w, head_dim);
    tape.backward(y.id);

    let (out, saved) = block_forward_save_bitnet(&x, &heads, &ffn, head_dim);
    assert_eq!(nums(&out), nums(&y.value(&tape)));
    let seed = Tensor::ones(out.shape.clone());
    let grads = block_backward_bitnet(&seed, &x, &saved, &heads, &ffn, head_dim);
    agree("grad_x", &x_var.grad(&tape), &grads.grad_x);
    for (h, g) in w.heads.iter().zip(&grads.head_grads) {
        agree("grad_w_q", &h.w_q.grad(&tape), &g.grad_w_q);
        agree("grad_w_k", &h.w_k.grad(&tape), &g.grad_w_k);
        agree("grad_w_v", &h.w_v.grad(&tape), &g.grad_w_v);
        agree("grad_w_o", &h.w_o.grad(&tape), &g.grad_w_o);
    }
    agree("grad_w_gate", &w.ffn_gate_w.grad(&tape), &grads.grad_w_gate);
    agree("grad_w_up", &w.ffn_up_w.grad(&tape), &grads.grad_w_up);
    agree("grad_w_down", &w.ffn_down_w.grad(&tape), &grads.grad_w_down);
}

#[test]
fn block_backward_shapes_follow_the_weights() {
    let (hidden, head_dim, n_heads, ffn_dim, seq) = (4usize, 2usize, 2usize, 6usize, 3usize);
    let x = tensor(
        (0..seq * hidden).map(|i| (i as f32 * 0.11).cos()).collect(),
        vec![seq, hidden],
    );
    let (heads, ffn) = make_block_weights_cpu(hidden, head_dim, n_heads, ffn_dim);
    let (out, saved) = block_forward_save(&x, &heads, &ffn, head_dim);
    let seed = Tensor::ones(out.shape.clone());
    let grads = block_backward(&seed, &x, &saved, &heads, &ffn, head_dim);
    assert_eq!(grads.grad_x.shape, vec![seq, hidden]);
    assert_eq!(grads.head_grads.len(), n_heads);
    assert_eq!(grads.head_grads[1].grad_w_q.shape, vec![hidden, head_dim]);
    assert_eq!(grads.head_grads[1].grad_w_o.shape, vec![head_dim, hidden]);
    assert_eq!(grads.grad_w_down.shape, vec![ffn_dim, hidden]);
}
