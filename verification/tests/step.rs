//! A window on a device: forward and backward passes, launch plans, and the flat
//! buffer of outputs.
use bitnet::device::{cross_entropy_backward, cross_entropy_forward_save, FfnWeights, HeadWeights};
use bitnet::float::Float;
use bitnet::gpu::{bit_linear_plan, grid_1d, grid_2d, target_args, BitLinearPlan};
use bitnet::model::{Model, ModelConfig};
use bitnet::step::{
    assemble_grads, step_layout, tied_embed_grad, weight_grads, window_backward,
    window_backward_bitnet, window_forward, window_forward_bitnet, window_grads, window_inference,
    DeviceBlock,
};
use bitnet::tensor::Tensor;
use bitnet::train::compute_grads_for_window;

/// A 32-bit float that keeps a single NaN.
#[derive(Clone, Copy, Debug, PartialEq, PartialOrd)]
struct F(f32);

/// Wraps a number, with one pattern for NaN.
fn f(x: f32) -> F {
    if x.is_nan() {
        F(f32::NAN)
    } else {
        F(x)
    }
}

impl Float for F {
    fn from_bits(bits: u32) -> F {
        f(f32::from_bits(bits))
    }

    fn to_bits(self) -> u32 {
        self.0.to_bits()
    }

    fn from_count(n: usize) -> F {
        F(n as f32)
    }

    fn from_i8(n: i8) -> F {
        F(n as f32)
    }

    fn to_i8(self) -> i8 {
        self.0 as i8
    }

    fn to_count(self) -> usize {
        self.0 as usize
    }

    fn plus(self, other: F) -> F {
        f(self.0 + other.0)
    }

    fn minus(self, other: F) -> F {
        f(self.0 - other.0)
    }

    fn times(self, other: F) -> F {
        f(self.0 * other.0)
    }

    fn over(self, other: F) -> F {
        f(self.0 / other.0)
    }

    fn pow(self, other: F) -> F {
        f(self.0.powf(other.0))
    }

    fn negate(self) -> F {
        f(-self.0)
    }

    fn abs(self) -> F {
        f(self.0.abs())
    }

    fn round(self) -> F {
        f(self.0.round())
    }

    fn exp(self) -> F {
        f(self.0.exp())
    }

    fn ln(self) -> F {
        f(self.0.ln())
    }

    fn sqrt(self) -> F {
        f(self.0.sqrt())
    }

    fn sin(self) -> F {
        f(self.0.sin())
    }

    fn cos(self) -> F {
        f(self.0.cos())
    }

    fn below(self, other: F) -> bool {
        self.0 < other.0
    }

    fn same(self, other: F) -> bool {
        self.0 == other.0
    }
}

fn tensor(data: Vec<f32>, shape: Vec<usize>) -> Tensor<F> {
    Tensor::from_vec(data.into_iter().map(f).collect(), shape)
}

fn nums(t: &Tensor<F>) -> Vec<f32> {
    t.data.iter().map(|x| x.0).collect()
}

fn small_model() -> Model<F> {
    Model::new(
        &ModelConfig {
            vocab_size: 7,
            hidden_dim: 8,
            n_heads: 2,
            head_dim: 4,
            ffn_dim: 12,
            max_seq_len: 6,
            n_blocks: 2,
        },
        21,
    )
}

fn blocks_of(model: &Model<F>) -> Vec<DeviceBlock<Tensor<F>>> {
    model
        .blocks
        .iter()
        .map(|b| DeviceBlock {
            heads: b
                .heads
                .iter()
                .map(|h| HeadWeights {
                    w_q: h.w_q.clone(),
                    w_k: h.w_k.clone(),
                    w_v: h.w_v.clone(),
                    w_o: h.w_o.clone(),
                })
                .collect(),
            ffn: FfnWeights {
                w_gate: b.ffn_gate_w.clone(),
                w_up: b.ffn_up_w.clone(),
                w_down: b.ffn_down_w.clone(),
            },
        })
        .collect()
}

#[test]
fn saving_a_window_does_not_change_its_logits() {
    let model = small_model();
    let x = model.token_embed.embed(&[1, 4, 2, 6]);
    let blocks = blocks_of(&model);
    let plain = window_inference(x.clone(), &blocks, &model.token_embed, 4);
    let (saved, _) = window_forward(x, &blocks, &model.token_embed, 4);
    assert_eq!(plain.shape, vec![4, 7]);
    assert_eq!(nums(&plain), nums(&saved));
}

#[test]
fn a_window_on_a_device_gives_the_gradients_of_the_tape() {
    let model = small_model();
    let (ids, targets) = ([1usize, 4, 2, 6], [4usize, 2, 6, 0]);
    let (want, want_loss) = compute_grads_for_window(&model, &ids, &targets);

    let x = model.token_embed.embed(&ids);
    let blocks = blocks_of(&model);
    let (logits, saved) = window_forward_bitnet(x, &blocks, &model.token_embed, 4);
    let (loss, probs) = cross_entropy_forward_save(&logits, &targets);
    assert!((loss.0 - want_loss.0).abs() < 1e-5);
    let back = cross_entropy_backward(&probs, &targets, ids.len());
    let grads = window_backward_bitnet(&back, &saved, &blocks, 4);

    let close = |label: &str, a: &Tensor<F>, b: &Tensor<F>| {
        assert_eq!(a.shape, b.shape, "{label}");
        for (x, y) in nums(a).iter().zip(nums(b)) {
            assert!((x - y).abs() <= 1e-4 + 1e-4 * y.abs(), "{label}: {x} and {y}");
        }
    };
    close("embedding", &tied_embed_grad(&grads.grad_x, &grads.grad_embed, &ids), &want[0]);
    let mut at: usize = 1;
    for b in &grads.blocks {
        for h in &b.head_grads {
            close("w_q", &h.grad_w_q, &want[at]);
            close("w_k", &h.grad_w_k, &want[at + 1]);
            close("w_v", &h.grad_w_v, &want[at + 2]);
            close("w_o", &h.grad_w_o, &want[at + 3]);
            at += 4;
        }
        close("gate", &b.grad_w_gate, &want[at]);
        close("up", &b.grad_w_up, &want[at + 1]);
        close("down", &b.grad_w_down, &want[at + 2]);
        at += 3;
    }
    assert_eq!(at, want.len());
}

#[test]
fn launches_cover_every_item() {
    assert_eq!(grid_1d(0), Some(0));
    assert_eq!(grid_1d(256), Some(1));
    assert_eq!(grid_1d(257), Some(2));
    assert_eq!(grid_1d(usize::MAX), None);
    assert_eq!(grid_2d(17, 16), Some((2, 1)));
    assert_eq!(grid_2d(1, usize::MAX), None);
}

#[test]
fn quantised_products_need_strides_of_four() {
    assert_eq!(
        bit_linear_plan(17, 8, 4),
        BitLinearPlan::Int8 { act_blocks: 17, weight_blocks: 1, scale_cols: 1, scale_rows: 2 }
    );
    assert_eq!(bit_linear_plan(2, 6, 4), BitLinearPlan::Float);
    assert_eq!(bit_linear_plan(2, 4, 5), BitLinearPlan::Float);
    assert_eq!(bit_linear_plan(usize::MAX, 4, 4), BitLinearPlan::TooLarge);
}

#[test]
fn targets_become_kernel_arguments() {
    assert_eq!(target_args(&[3, 0, 2], 4), Some(vec![3, 0, 2]));
    assert_eq!(target_args(&[3, 4], 4), None);
}

#[test]
fn outputs_lie_one_after_the_other() {
    let l = step_layout(3, 2, 5, &[4, 6]);
    assert_eq!(l.loss, 0);
    assert_eq!(l.lm_head_w_t, 3);
    assert_eq!(l.x_pre_blocks, 13);
    assert_eq!(l.weights, vec![19, 23]);
    assert_eq!(l.total, 29);
}

#[test]
fn gradients_are_read_back_from_the_buffer() {
    let l = step_layout(2, 1, 3, &[2]);
    let host: Vec<F> = [4.0, 2.0, 10.0, 20.0, 30.0, 1.0, 5.0, 7.0, 8.0]
        .into_iter()
        .map(f)
        .collect();
    let (grads, loss) = assemble_grads(&host, &l, &[2, 2], 1, 3, &[vec![1, 2]]);
    assert_eq!(loss.0, 3.0);
    assert_eq!(nums(&grads[0]), vec![10.0, 20.0, 36.0]);
    assert_eq!(grads[1].shape, vec![1, 2]);
    assert_eq!(nums(&grads[1]), vec![7.0, 8.0]);
}

#[test]
fn the_embedding_collects_repeated_rows() {
    let grad_x = tensor(vec![1.0, 2.0, 3.0, 4.0], vec![2, 2]);
    let from_lm = tensor(vec![0.5, 0.5, 0.25, 0.25], vec![2, 2]);
    let r = tied_embed_grad(&grad_x, &from_lm, &[1, 1]);
    assert_eq!(nums(&r), vec![0.5, 0.5, 4.25, 6.25]);
}

#[test]
fn a_plain_window_chains_its_passes() {
    let model = small_model();
    let ids = [1usize, 3, 0, 2];
    let targets = [3usize, 0, 2, 4];
    let blocks = blocks_of(&model);
    let head_dim = model.config.head_dim;
    let (loss, grads) = window_grads(
        model.token_embed.embed(&ids),
        &blocks,
        &model.token_embed,
        &targets,
        head_dim,
    );
    let (logits, saved) =
        window_forward(model.token_embed.embed(&ids), &blocks, &model.token_embed, head_dim);
    let (want, probs) = cross_entropy_forward_save(&logits, &targets);
    let g = cross_entropy_backward(&probs, &targets, ids.len());
    let by_hand = window_backward(&g, &saved, &blocks, head_dim);
    assert_eq!(loss, want);
    assert_eq!(nums(&grads.grad_x), nums(&by_hand.grad_x));
    assert_eq!(nums(&grads.grad_embed), nums(&by_hand.grad_embed));
    assert_eq!(grads.blocks.len(), blocks.len());
    assert!(nums(&grads.grad_x).iter().any(|v| *v != 0.0));
}

#[test]
fn the_gradients_of_a_block_come_in_the_order_of_its_weights() {
    let model = small_model();
    let blocks = blocks_of(&model);
    let (_, grads) = window_grads(
        model.token_embed.embed(&[0, 1]),
        &blocks,
        &model.token_embed,
        &[1, 2],
        model.config.head_dim,
    );
    let b = &grads.blocks[0];
    let listed = weight_grads(b);
    assert_eq!(listed.len(), 4 * b.head_grads.len() + 3);
    let mut want: Vec<Vec<f32>> = Vec::new();
    for h in &b.head_grads {
        want.push(nums(&h.grad_w_q));
        want.push(nums(&h.grad_w_k));
        want.push(nums(&h.grad_w_v));
        want.push(nums(&h.grad_w_o));
    }
    want.push(nums(&b.grad_w_gate));
    want.push(nums(&b.grad_w_up));
    want.push(nums(&b.grad_w_down));
    let got: Vec<Vec<f32>> = listed.into_iter().map(nums).collect();
    assert_eq!(got, want);
}
