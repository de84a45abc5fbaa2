//! Attention, the feed-forward layer and the transformer block on the tape.
use bitnet::attention::attention;
use bitnet::autograd::{Tape, Var};
use bitnet::block::{transformer_block, AttentionHeadVars, BlockWeights};
use bitnet::ffn::ffn;
use bitnet::float::Float;
use bitnet::tensor::Tensor;

/// A 32-bit float that keeps a single NaN.
#[derive(Clone, Copy, Debug, PartialEq, PartialOrd)]
struct F(f32);

/// Wraps a number, with one pattern for NaN.
fn f(x: f32) -> F {
    if x.is_nan() {
        F(f32::NAN)
    } else {
        F(x)
    }
}

impl Float for F {
    fn from_bits(bits: u32) -> F {
        f(f32::from_bits(bits))
    }

    fn to_bits(self) -> u32 {
        self.0.to_bits()
    }

    fn from_count(n: usize) -> F {
        F(n as f32)
    }

    fn from_i8(n: i8) -> F {
        F(n as f32)
    }

    fn to_i8(self) -> i8 {
        self.0 as i8
    }

    fn to_count(self) -> usize {
        self.0 as usize
    }

    fn plus(self, other: F) -> F {
        f(self.0 + other.0)
    }

    fn minus(self, other: F) -> F {
        f(self.0 - other.0)
    }

    fn times(self, other: F) -> F {
        f(self.0 * other.0)
    }

    fn over(self, other: F) -> F {
        f(self.0 / other.0)
    }

    fn pow(self, other: F) -> F {
        f(self.0.powf(other.0))
    }

    fn negate(self) -> F {
        f(-self.0)
    }

    fn abs(self) -> F {
        f(self.0.abs())
    }

    fn round(self) -> F {
        f(self.0.round())
    }

    fn exp(self) -> F {
        f(self.0.exp())
    }

    fn ln(self) -> F {
        f(self.0.ln())
    }

    fn sqrt(self) -> F {
        f(self.0.sqrt())
    }

    fn sin(self) -> F {
        f(self.0.sin())
    }

    fn cos(self) -> F {
        f(self.0.cos())
    }

    fn below(self, other: F) -> bool {
        self.0 < other.0
    }

    fn same(self, other: F) -> bool {
        self.0 == other.0
    }
}

fn tensor(data: Vec<f32>, shape: Vec<usize>) -> Tensor<F> {
    Tensor::from_vec(data.into_iter().map(f).collect(), shape)
}

fn values(v: Var, tape: &Tape<F>) -> Vec<f32> {
    v.value(tape).data.iter().map(|x| x.0).collect()
}

fn has_nonzero(t: &Tensor<F>) -> bool {
    t.data.iter().any(|v| v.0.abs() > 1e-8)
}

fn make_weight(in_dim: usize, out_dim: usize, offset: f32) -> Tensor<F> {
    tensor(
        (0..in_dim * out_dim)
            .map(|i| (i as f32) * 0.05 + 0.05 + offset)
            .collect(),
        vec![in_dim, out_dim],
    )
}

fn build_heads(
    tape: &mut Tape<F>,
    n_heads: usize,
    hidden_dim: usize,
    head_dim: usize,
) -> Vec<AttentionHeadVars> {
    (0..n_heads)
        .map(|i| {
            let off = (i as f32) * 0.001;
            AttentionHeadVars {
                w_q: Var::leaf(tape, make_weight(hidden_dim, head_dim, off)),
                w_k: Var::leaf(tape, make_weight(hidden_dim, head_dim, off)),
                w_v: Var::leaf(tape, make_weight(hidden_dim, head_dim, off)),
                w_o: Var::leaf(tape, make_weight(head_dim, hidden_dim, off)),
            }
        })
        .collect()
}

fn make_block_weights(
    tape: &mut Tape<F>,
    hidden_dim: usize,
    head_dim: usize,
    ffn_dim: usize,
    offset: f32,
) -> BlockWeights {
    BlockWeights {
        heads: vec![AttentionHeadVars {
            w_q: Var::leaf(tape, make_weight(hidden_dim, head_dim, offset)),
            w_k: Var::leaf(tape, make_weight(hidden_dim, head_dim, offset)),
            w_v: Var::leaf(tape, make_weight(hidden_dim, head_dim, offset)),
            w_o: Var::leaf(tape, make_weight(head_dim, hidden_dim, offset)),
        }],
        ffn_gate_w: Var::leaf(tape, make_weight(hidden_dim, ffn_dim, offset)),
        ffn_up_w: Var::leaf(tape, make_weight(hidden_dim, ffn_dim, offset)),
        ffn_down_w: Var::leaf(tape, make_weight(ffn_dim, hidden_dim, offset)),
    }
}

#[test]
fn attention_forward_produces_correct_shape() {
    let mut tape = Tape::<F>::new();
    let seq_len = 4;
    let n_heads = 3;
    let hidden_dim = 6;
    let head_dim = 2; // n_heads * head_dim == hidden_dim

    let x = Var::leaf(
        &mut tape,
        tensor(
            (0..seq_len * hidden_dim)
                .map(|i| (i as f32) * 0.1)
                .collect(),
            vec![seq_len, hidden_dim],
        ),
    );

    let heads = build_heads(&mut tape, n_heads, hidden_dim, head_dim);
    let y = attention(&mut tape, x, &heads, head_dim);
    assert_eq!(y.value(&tape).shape, vec![seq_len, hidden_dim]);
}

#[test]
fn attention_softmax_rows_sum_to_one_after_forward() {
    let mut tape = Tape::<F>::new();
    let seq_len = 3;
    let n_heads = 2;
    let hidden_dim = 4;
    let head_dim = 2;

    let x = Var::leaf(
        &mut tape,
        tensor(
            (0..seq_len * hidden_dim)
                .map(|i| (i as f32) * 0.2 - 0.5)
                .collect(),
            vec![seq_len, hidden_dim],
        ),
    );
    let heads = build_heads(&mut tape, n_heads, hidden_dim, head_dim);
    let y = attention(&mut tape, x, &heads, head_dim);
    for (i, &v) in values(y, &tape).iter().enumerate() {
        assert!(
            v.is_finite(),
            "attention output[{}] = {} is not finite",
            i,
            v
        );
    }
}

#[test]
fn attention_backward_routes_gradient_to_every_head_and_input() {
    let mut tape = Tape::<F>::new();
    let seq_len = 3;
    let n_heads = 2;
    let hidden_dim = 4;
    let head_dim = 2;

    let x = Var::leaf(
        &mut tape,
        tensor(
            (0..seq_len * hidden_dim)
                .map(|i| (i as f32) * 0.1 + 0.1)
                .collect(),
            vec![seq_len, hidden_dim],
        ),
    );
    let heads = build_heads(&mut tape, n_heads, hidden_dim, head_dim);

    let y = attention(&mut tape, x, &heads, head_dim);
    let loss = y.mean(&mut tape);

    tape.backward(loss.id);

    for (i, h) in heads.iter().enumerate() {
        assert!(has_nonzero(&h.w_q.grad(&tape)), "head {} w_q zero grad", i);
        assert!(has_nonzero(&h.w_k.grad(&tape)), "head {} w_k zero grad", i);
        assert!(has_nonzero(&h.w_v.grad(&tape)), "head {} w_v zero grad", i);
        assert!(has_nonzero(&h.w_o.grad(&tape)), "head {} w_o zero grad", i);
    }
    assert!(has_nonzero(&x.grad(&tape)), "x got all-zero gradient");
}

#[test]
fn ffn_forward_produces_correct_shape() {
    let mut tape = Tape::<F>::new();
    let seq_len = 3;
    let hidden_dim = 4;
    let ffn_dim = 8; // 2× hidden_dim - keeps the test cheap; real models use 4×

    let x = Var::leaf(
        &mut tape,
        tensor(
            (0..seq_len * hidden_dim)
                .map(|i| (i as f32) * 0.1)
                .collect(),
            vec![seq_len, hidden_dim],
        ),
    );
    let gate_w = Var::leaf(&mut tape, make_weight(hidden_dim, ffn_dim, 0.00));
    let up_w = Var::leaf(&mut tape, make_weight(hidden_dim, ffn_dim, 0.01));
    let down_w = Var::leaf(&mut tape, make_weight(ffn_dim, hidden_dim, 0.02));

    let y = ffn(&mut tape, x, gate_w, up_w, down_w);
    assert_eq!(y.value(&tape).shape, vec![seq_len, hidden_dim]);

    for &v in values(y, &tape).iter() {
        assert!(v.is_finite(), "FFN output contains non-finite value: {}", v);
    }
}

#[test]
fn ffn_backward_routes_gradient_to_all_three_weights_and_input() {
    let mut tape = Tape::<F>::new();
    let seq_len = 3;
    let hidden_dim = 4;
    let ffn_dim = 8;

    let x = Var::leaf(
        &mut tape,
        tensor(
            (0..seq_len * hidden_dim)
                .map(|i| (i as f32) * 0.1 + 0.1)
                .collect(),
            vec![seq_len, hidden_dim],
        ),
    );
    let gate_w = Var::leaf(&mut tape, make_weight(hidden_dim, ffn_dim, 0.00));
    let up_w = Var::leaf(&mut tape, make_weight(hidden_dim, ffn_dim, 0.01));
    let down_w = Var::leaf(&mut tape, make_weight(ffn_dim, hidden_dim, 0.02));

    let y = ffn(&mut tape, x, gate_w, up_w, down_w);
    let loss = y.mean(&mut tape);
    tape.backward(loss.id);

    assert!(has_nonzero(&gate_w.grad(&tape)), "gate_w got all-zero gradient");
    assert!(has_nonzero(&up_w.grad(&tape)), "up_w got all-zero gradient");
    assert!(has_nonzero(&down_w.grad(&tape)), "down_w got all-zero gradient");
    assert!(has_nonzero(&x.grad(&tape)), "x got all-zero gradient");
}

#[test]
fn ffn_silu_gate_keeps_negative_inputs_alive() {
    let mut tape = Tape::<F>::new();
    let seq_len = 2;
    let hidden_dim = 3;
    let ffn_dim = 4;

    let x = Var::leaf(&mut tape, Tensor::ones(vec![seq_len, hidden_dim]));

    let neg_gate = tensor(
        vec![-1.0; hidden_dim * ffn_dim],
        vec![hidden_dim, ffn_dim],
    );
    let gate_w = Var::leaf(&mut tape, neg_gate);
    let up_w = Var::leaf(&mut tape, make_weight(hidden_dim, ffn_dim, 0.01));
    let down_w = Var::leaf(&mut tape, make_weight(ffn_dim, hidden_dim, 0.02));

    let y = ffn(&mut tape, x, gate_w, up_w, down_w);

    for &v in values(y, &tape).iter() {
        assert!(v.is_finite(), "non-finite output through SiLU gate: {}", v);
    }
    let any_nonzero = values(y, &tape).iter().any(|&v| v.abs() > 1e-12);
    assert!(
        any_nonzero,
        "SiLU gate produced exactly zero output; expected a small non-zero value"
    );
}

#[test]
fn transformer_block_forward_preserves_shape() {
    let mut tape = Tape::<F>::new();
    let seq_len = 4;
    let hidden_dim = 6;
    let head_dim = 6;
    let ffn_dim = 12;

    let x = Var::leaf(
        &mut tape,
        tensor(
            (0..seq_len * hidden_dim)
                .map(|i| (i as f32) * 0.1 + 0.1)
                .collect(),
            vec![seq_len, hidden_dim],
        ),
    );
    let w = make_block_weights(&mut tape, hidden_dim, head_dim, ffn_dim, 0.0);

    let y = transformer_block(&mut tape, x, &w, head_dim);
    assert_eq!(y.value(&tape).shape, vec![seq_len, hidden_dim]);

    for &v in values(y, &tape).iter() {
        assert!(
            v.is_finite(),
            "block output contains non-finite value: {}",
            v
        );
    }
}

#[test]
fn transformer_block_backward_routes_gradient_everywhere() {
    let mut tape = Tape::<F>::new();
    let seq_len = 3;
    let hidden_dim = 4;
    let head_dim = 4;
    let ffn_dim = 8;

    let x = Var::leaf(
        &mut tape,
        tensor(
            (0..seq_len * hidden_dim)
                .map(|i| (i as f32) * 0.1 + 0.1)
                .collect(),
            vec![seq_len, hidden_dim],
        ),
    );
    let w = make_block_weights(&mut tape, hidden_dim, head_dim, ffn_dim, 0.0);

    let y = transformer_block(&mut tape, x, &w, head_dim);
    let loss = y.mean(&mut tape);
    tape.backward(loss.id);

    assert!(
        has_nonzero(&w.heads[0].w_q.grad(&tape)),
        "attn_w_q got all-zero gradient"
    );
    assert!(
        has_nonzero(&w.heads[0].w_k.grad(&tape)),
        "attn_w_k got all-zero gradient"
    );
    assert!(
        has_nonzero(&w.heads[0].w_v.grad(&tape)),
        "attn_w_v got all-zero gradient"
    );
    assert!(
        has_nonzero(&w.heads[0].w_o.grad(&tape)),
        "attn_w_o got all-zero gradient"
    );
    assert!(
        has_nonzero(&w.ffn_gate_w.grad(&tape)),
        "ffn_gate_w got all-zero gradient"
    );
    assert!(
        has_nonzero(&w.ffn_up_w.grad(&tape)),
        "ffn_up_w got all-zero gradient"
    );
    assert!(
        has_nonzero(&w.ffn_down_w.grad(&tape)),
        "ffn_down_w got all-zero gradient"
    );
    assert!(has_nonzero(&x.grad(&tape)), "x got all-zero gradient");
}

#[test]
fn stacked_two_blocks_forward_and_backward() {
    let mut tape = Tape::<F>::new();
    let seq_len = 3;
    let hidden_dim = 4;
    let head_dim = 4;
    let ffn_dim = 8;

    let x = Var::leaf(
        &mut tape,
        tensor(
            (0..seq_len * hidden_dim)
                .map(|i| (i as f32) * 0.1 + 0.1)
                .collect(),
            vec![seq_len, hidden_dim],
        ),
    );

    let w0 = make_block_weights(&mut tape, hidden_dim, head_dim, ffn_dim, 0.00);
    let w1 = make_block_weights(&mut tape, hidden_dim, head_dim, ffn_dim, 0.01);

    let h = transformer_block(&mut tape, x, &w0, head_dim);
    let y = transformer_block(&mut tape, h, &w1, head_dim);
    let loss = y.mean(&mut tape);

    assert_eq!(y.value(&tape).shape, vec![seq_len, hidden_dim]);

    tape.backward(loss.id);

    for (name, var) in [
        ("w0.attn_w_q", w0.heads[0].w_q),
        ("w0.attn_w_k", w0.heads[0].w_k),
        ("w0.attn_w_v", w0.heads[0].w_v),
        ("w0.attn_w_o", w0.heads[0].w_o),
        ("w0.ffn_gate_w", w0.ffn_gate_w),
        ("w0.ffn_up_w", w0.ffn_up_w),
        ("w0.ffn_down_w", w0.ffn_down_w),
        ("w1.attn_w_q", w1.heads[0].w_q),
        ("w1.attn_w_k", w1.heads[0].w_k),
        ("w1.attn_w_v", w1.heads[0].w_v),
        ("w1.attn_w_o", w1.heads[0].w_o),
        ("w1.ffn_gate_w", w1.ffn_gate_w),
        ("w1.ffn_up_w", w1.ffn_up_w),
        ("w1.ffn_down_w", w1.ffn_down_w),
    ] {
        assert!(has_nonzero(&var.grad(&tape)), "{} got all-zero gradient", name);
    }
    assert!(
        has_nonzero(&x.grad(&tape)),
        "x got all-zero gradient through stacked blocks"
    );
}

#[test]
fn several_heads_give_the_sum_of_each() {
    let mut tape = Tape::<F>::new();
    let x = Var::leaf(
        &mut tape,
        tensor((0..12).map(|i| (i as f32) * 0.2 - 0.5).collect(), vec![3, 4]),
    );
    let heads = build_heads(&mut tape, 2, 4, 2);
    let both = attention(&mut tape, x, &heads, 2);
    let one = attention(&mut tape, x, &heads[..1], 2);
    let other = attention(&mut tape, x, &heads[1..], 2);
    let sum: Vec<f32> = values(one, &tape)
        .iter()
        .zip(values(other, &tape))
        .map(|(a, b)| a + b)
        .collect();
    assert_eq!(values(both, &tape), sum);
}

#[test]
fn a_row_of_attention_does_not_look_ahead() {
    let rows = |last: f32| -> Vec<f32> {
        let mut data: Vec<f32> = (0..12).map(|i| (i as f32) * 0.2 - 0.5).collect();
        for v in &mut data[8..] {
            *v += last;
        }
        let mut tape = Tape::<F>::new();
        let x = Var::leaf(&mut tape, tensor(data, vec![3, 4]));
        let heads = build_heads(&mut tape, 2, 4, 2);
        let y = attention(&mut tape, x, &heads, 2);
        values(y, &tape)
    };
    let (a, b) = (rows(0.0), rows(3.0));
    assert_eq!(a[..8], b[..8]);
    assert_ne!(a[8..], b[8..]);
}

#[test]
fn rotating_back_undoes_a_rotation() {
    let x = tensor((0..24).map(|i| ((i as f32) * 0.37).sin()).collect(), vec![3, 8]);
    let back = x.rope().rope_grad();
    for (a, b) in x.data.iter().zip(&back.data) {
        assert!((a.0 - b.0).abs() < 1e-5);
    }
}

#[test]
fn an_even_gradient_passes_nothing_through_a_softmax() {
    let s = tensor(vec![1.0, 2.0, 3.0, 0.5, -0.5, 1.5], vec![2, 3]).softmax();
    let g = tensor(vec![0.7; 6], vec![2, 3]);
    for v in &g.softmax_grad(&s).data {
        assert!(v.0.abs() < 1e-6);
    }
}
