//! The model: shapes, gradients and descent.
use bitnet::autograd::Tape;
use bitnet::float::Float;
use bitnet::model::{Model, ModelConfig};
use bitnet::tensor::Tensor;

/// A 32-bit float that keeps a single NaN.
#[derive(Clone, Copy, Debug, PartialEq, PartialOrd)]
struct F(f32);

/// Wraps a number, with one pattern for NaN.
fn f(x: f32) -> F {
    if x.is_nan() {
        F(f32::NAN)
    } else {
        F(x)
    }
}

impl Float for F {
    fn from_bits(bits: u32) -> F {
        f(f32::from_bits(bits))
    }

    fn to_bits(self) -> u32 {
        self.0.to_bits()
    }

    fn from_count(n: usize) -> F {
        F(n as f32)
    }

    fn from_i8(n: i8) -> F {
        F(n as f32)
    }

    fn to_i8(self) -> i8 {
        self.0 as i8
    }

    fn to_count(self) -> usize {
        self.0 as usize
    }

    fn plus(self, other: F) -> F {
        f(self.0 + other.0)
    }

    fn minus(self, other: F) -> F {
        f(self.0 - other.0)
    }

    fn times(self, other: F) -> F {
        f(self.0 * other.0)
    }

    fn over(self, other: F) -> F {
        f(self.0 / other.0)
    }

    fn pow(self, other: F) -> F {
        f(self.0.powf(other.0))
    }

    fn negate(self) -> F {
        f(-self.0)
    }

    fn abs(self) -> F {
        f(self.0.abs())
    }

    fn round(self) -> F {
        f(self.0.round())
    }

    fn exp(self) -> F {
        f(self.0.exp())
    }

    fn ln(self) -> F {
        f(self.0.ln())
    }

    fn sqrt(self) -> F {
        f(self.0.sqrt())
    }

    fn sin(self) -> F {
        f(self.0.sin())
    }

    fn cos(self) -> F {
        f(self.0.cos())
    }

    fn below(self, other: F) -> bool {
        self.0 < other.0
    }

    fn same(self, other: F) -> bool {
        self.0 == other.0
    }
}

fn has_nonzero(t: &Tensor<F>) -> bool {
    t.data.iter().any(|v| v.0.abs() > 1e-10)
}

fn tiny_config() -> ModelConfig {
    ModelConfig {
        vocab_size: 8,
        hidden_dim: 4,
        n_heads: 2,
        head_dim: 2,
        ffn_dim: 8,
        max_seq_len: 4,
        n_blocks: 2,
    }
}

#[test]
fn model_forward_produces_correct_logits_shape() {
    let cfg = tiny_config();
    let model = Model::<F>::new(&cfg, 42);
    let mut tape = Tape::<F>::new();
    let leaves = model.register_leaves(&mut tape);

    let ids = vec![3, 1, 4, 1]; // length 4 = max_seq_len
    let logits = model.forward(&mut tape, &leaves, &ids);

    assert_eq!(logits.value(&tape).shape, vec![4, cfg.vocab_size]);
    for v in logits.value(&tape).data.iter() {
        let v = v.0;
        assert!(v.is_finite(), "logit non-finite: {}", v);
    }
}

#[test]
fn model_backward_routes_gradient_to_every_master_weight() {
    let cfg = tiny_config();
    let model = Model::<F>::new(&cfg, 0);
    let mut tape = Tape::<F>::new();
    let leaves = model.register_leaves(&mut tape);

    let ids = vec![1, 2, 3, 4];
    let targets = vec![2, 3, 4, 5];

    let logits = model.forward(&mut tape, &leaves, &ids);
    let loss = logits.cross_entropy(&mut tape, &targets);
    tape.backward(loss.id);

    assert!(has_nonzero(&leaves.token_embed.grad(&tape)), "token_embed");
    for (i, b) in leaves.blocks.iter().enumerate() {
        for (j, h) in b.heads.iter().enumerate() {
            assert!(has_nonzero(&h.w_q.grad(&tape)), "block {} head {} w_q", i, j);
            assert!(has_nonzero(&h.w_k.grad(&tape)), "block {} head {} w_k", i, j);
            assert!(has_nonzero(&h.w_v.grad(&tape)), "block {} head {} w_v", i, j);
            assert!(has_nonzero(&h.w_o.grad(&tape)), "block {} head {} w_o", i, j);
        }
        assert!(has_nonzero(&b.ffn_gate_w.grad(&tape)), "block {} ffn_gate_w", i);
        assert!(has_nonzero(&b.ffn_up_w.grad(&tape)), "block {} ffn_up_w", i);
        assert!(has_nonzero(&b.ffn_down_w.grad(&tape)), "block {} ffn_down_w", i);
    }
}

#[test]
fn training_steps_reduce_loss_on_a_fixed_window() {
    let cfg = tiny_config();
    let mut model = Model::<F>::new(&cfg, 7);

    let ids = vec![1, 2, 3, 4];
    let targets = vec![2, 3, 4, 5];
    let lr = 0.05_f32;
    let n_steps = 50;

    let compute_loss = |m: &Model<F>| -> f32 {
        let mut tape = Tape::<F>::new();
        let leaves = m.register_leaves(&mut tape);
        let logits = m.forward(&mut tape, &leaves, &ids);
        logits.cross_entropy(&mut tape, &targets).value(&tape).data[0].0
    };

    let initial_loss = compute_loss(&model);

    for _ in 0..n_steps {
        let mut tape = Tape::<F>::new();
        let leaves = model.register_leaves(&mut tape);
        let logits = model.forward(&mut tape, &leaves, &ids);
        let loss = logits.cross_entropy(&mut tape, &targets);
        tape.backward(loss.id);
        model.apply_grads(&tape, &leaves, F(lr));
    }

    let final_loss = compute_loss(&model);

    assert!(
        final_loss < initial_loss * 0.7,
        "loss did not drop enough over {} steps: initial = {}, final = {}",
        n_steps,
        initial_loss,
        final_loss
    );
}

#[test]
fn weights_come_in_one_order() {
    let model = Model::<F>::new(&tiny_config(), 3);
    let shapes = model.param_shapes();
    assert_eq!(shapes.len(), 1 + 2 * (2 * 4 + 3));
    assert_eq!(shapes[0], vec![8, 4]);
    assert_eq!(shapes[1], vec![4, 2]);
    assert_eq!(shapes[4], vec![2, 4]);
    assert_eq!(shapes[9], vec![4, 8]);
    assert_eq!(shapes[11], vec![8, 4]);
    let params = model.params();
    assert_eq!(params[0].data, model.token_embed.data);
    assert_eq!(params[11].data, model.blocks[0].ffn_down_w.data);
    assert_eq!(params[12].data, model.blocks[1].heads[0].w_q.data);
}

#[test]
fn one_seed_gives_one_model() {
    let a = Model::<F>::new(&tiny_config(), 5);
    let b = Model::<F>::new(&tiny_config(), 5);
    let c = Model::<F>::new(&tiny_config(), 6);
    assert_eq!(a.token_embed.data, b.token_embed.data);
    assert_ne!(a.token_embed.data, c.token_embed.data);
}

#[test]
fn descent_moves_each_weight_against_its_gradient() {
    let mut model = Model::<F>::new(&tiny_config(), 5);
    let before = model.clone();
    let mut tape = Tape::<F>::new();
    let leaves = model.register_leaves(&mut tape);
    let loss = model
        .forward(&mut tape, &leaves, &[1, 2, 3])
        .cross_entropy(&mut tape, &[2, 3, 4]);
    tape.backward(loss.id);
    let grads = model.for_each_grad(&tape, &leaves);
    model.apply_grads(&tape, &leaves, F(0.5));
    for ((new, old), g) in model.params().iter().zip(before.params()).zip(&grads) {
        for i in 0..new.data.len() {
            assert_eq!(new.data[i].0, old.data[i].0 - 0.5 * g.data[i].0);
        }
    }
}
