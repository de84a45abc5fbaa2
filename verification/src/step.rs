//! One training window on a device: the whole forward and backward pass over
//! any backend, the layout of its outputs in one flat buffer, and the
//! assembling of the gradients from that buffer.
use crate::device::{
    bit_linear_backward, block_backward, block_backward_bitnet, block_forward_save,
    block_forward_save_bitnet, block_grads_bit_ok, block_grads_fit, block_grads_ok, block_inference,
    block_out_bit_of, block_out_of, block_saved_bit_ok, block_saved_fits, block_saved_ok,
    block_weights_fit, cross_entropy_backward, cross_entropy_forward_save, ffn_val, head_scale,
    heads_val, is_mat, left_grad, matmul_backward, right_grad, settled, Add, BitLinear, BlockGrads,
    BlockSaved, CausalMask, CausalMaskBackward, CrossEntropy, CrossEntropyBackward, Device, FfnWeights, HeadWeights, MatMul, Mul, MulScalar, QuantiseActsSTE, QuantiseWeightsSTE,
    RmsNorm, RmsNormBackward, Rope, RopeBackward, Silu, SiluBackward, Softmax, SoftmaxBackward,
    Sound, Transpose2D,
};
use crate::float::{deterministic, fcount, fdiv, fsum, sum, Float};
use crate::layout::{block_items, heads_items, lemma_heads_len, BlockOf, HeadOf};
use crate::ops::{embed_grad_of, ids_below};
use crate::tensor::{
    add_of, copy_slice, count_items, countable, lemma_countable2, volume, Array, Tensor,
};
use vstd::prelude::*;
use vstd::slice::slice_subrange;

verus! {

/// The weights of one block on a device.
pub struct DeviceBlock<T> {
    pub heads: Vec<HeadWeights<T>>,
    pub ffn: FfnWeights<T>,
}

/// What the backward pass of a window needs of its forward pass.
pub struct WindowSaved<T> {
    /// The input of each block, and the output of the last.
    pub block_inputs: Vec<T>,
    pub block_saveds: Vec<BlockSaved<T>>,
    pub pre_lm_head: T,
    pub lm_head_w: T,
}

/// The gradients of a window.
pub struct WindowGrads<T> {
    /// What the last projection passes back to the embedding it is tied to.
    pub grad_embed: T,
    /// The gradient of the embedded window.
    pub grad_x: T,
    pub blocks: Vec<BlockGrads<T>>,
}

/// Every block fits activations of `s` rows and `n` columns.
pub open spec fn blocks_fit<T: Device>(bs: Seq<DeviceBlock<T>>, s: usize, n: usize) -> bool {
    forall|j: int|
        0 <= j < bs.len() ==> block_weights_fit(
            (#[trigger] bs[j]).heads@,
            bs[j].ffn,
            s,
            n,
        )
}

/// The embedded window, the blocks and the tied embedding fit each other.
pub open spec fn window_fits<T: Device>(x: T, bs: Seq<DeviceBlock<T>>, embed: T) -> bool {
    &&& x.sound() && embed.sound()
    &&& x.shape().len() == 2 && embed.shape().len() == 2
    &&& x.shape()[1] == embed.shape()[1]
    &&& x.shape()[0] * embed.shape()[0] <= usize::MAX
    &&& blocks_fit(bs, x.shape()[0], x.shape()[1])
}

/// What a window saved has the shapes of its activations.
pub open spec fn window_saved_fits<T: Device>(
    sv: WindowSaved<T>,
    bs: Seq<DeviceBlock<T>>,
    s: usize,
    n: usize,
    vocab: usize,
) -> bool {
    &&& sv.block_inputs@.len() == bs.len() + 1
    &&& forall|j: int| 0 <= j <= bs.len() ==> is_mat(#[trigger] sv.block_inputs@[j], s, n)
    &&& sv.block_saveds@.len() == bs.len()
    &&& forall|j: int|
        0 <= j < bs.len() ==> block_saved_fits(
            #[trigger] sv.block_saveds@[j],
            bs[j].heads@,
            bs[j].ffn,
            seq![s, n],
        )
    &&& is_mat(sv.pre_lm_head, s, n)
    &&& is_mat(sv.lm_head_w, n, vocab)
}

/// The gradients of a window have the shapes of what they belong to.
pub open spec fn window_grads_fit<T: Device>(
    g: WindowGrads<T>,
    bs: Seq<DeviceBlock<T>>,
    s: usize,
    n: usize,
    vocab: usize,
) -> bool {
    &&& is_mat(g.grad_embed, vocab, n)
    &&& is_mat(g.grad_x, s, n)
    &&& g.blocks@.len() == bs.len()
    &&& forall|j: int|
        0 <= j < bs.len() ==> block_grads_fit(
            #[trigger] g.blocks@[j],
            bs[j].heads@,
            bs[j].ffn,
            seq![s, n],
            bs[j].heads@.len(),
        )
}

/// The activations after `n` blocks of plain projections.
pub open spec fn blocks_out_of<T: MatMul + Add + MulScalar + Transpose2D + Softmax + CausalMask + Rope + RmsNorm + Silu + Mul>(
    x: T::V,
    bs: Seq<DeviceBlock<T>>,
    scale: T::S,
    n: nat,
) -> T::V
    decreases n,
{
    if n == 0 {
        x
    } else {
        block_out_of::<T>(
            blocks_out_of(x, bs, scale, (n - 1) as nat),
            heads_val(bs[n - 1].heads@),
            ffn_val(bs[n - 1].ffn),
            scale,
        )
    }
}

/// The logits of an embedded window, for plain projections.
pub open spec fn window_out_of<T: MatMul + Add + MulScalar + Transpose2D + Softmax + CausalMask + Rope + RmsNorm + Silu + Mul>(
    x: T::V,
    bs: Seq<DeviceBlock<T>>,
    embed: T::V,
    scale: T::S,
) -> T::V {
    T::matmul_of(
        T::rmsnorm_of(blocks_out_of(x, bs, scale, bs.len())),
        T::transpose_2d_of(embed),
    )
}

/// What a window of plain projections saves.
pub open spec fn window_saved_ok<T: MatMul + Add + MulScalar + Transpose2D + Softmax + CausalMask + Rope + RmsNorm + Silu + Mul>(
    sv: WindowSaved<T>,
    x: T::V,
    bs: Seq<DeviceBlock<T>>,
    embed: T::V,
    scale: T::S,
) -> bool {
    &&& forall|j: int|
        0 <= j <= bs.len() ==> (#[trigger] sv.block_inputs@[j]).val() == blocks_out_of(
            x,
            bs,
            scale,
            j as nat,
        )
    &&& forall|j: int|
        0 <= j < bs.len() ==> block_saved_ok(
            #[trigger] sv.block_saveds@[j],
            blocks_out_of(x, bs, scale, j as nat),
            heads_val(bs[j].heads@),
            ffn_val(bs[j].ffn),
            scale,
        )
    &&& sv.pre_lm_head.val() == T::rmsnorm_of(blocks_out_of(x, bs, scale, bs.len()))
    &&& sv.lm_head_w.val() == T::transpose_2d_of(embed)
}

/// The forward pass of an embedded window through blocks of plain projections and
/// the tied last projection: the logits, and what the backward pass needs.
#[verifier::rlimit(40)]
pub fn window_forward<T: MatMul + Add + MulScalar + Transpose2D + Softmax + CausalMask + Rope + RmsNorm + Silu + Mul>(
    x: T,
    blocks: &[DeviceBlock<T>],
    embed: &T,
    head_dim: usize,
) -> (r: (T, WindowSaved<T>))
    requires
        window_fits(x, blocks@, *embed),
    ensures
        is_mat(r.0, x.shape()[0], embed.shape()[0]),
        window_saved_fits(r.1, blocks@, x.shape()[0], x.shape()[1], embed.shape()[0]),
        settled::<T>() ==> {
            &&& r.0.val() == window_out_of(x.val(), blocks@, embed.val(), head_scale(head_dim))
            &&& window_saved_ok(r.1, x.val(), blocks@, embed.val(), head_scale(head_dim))
        },
{
    let ghost (s, n) = (x.shape()[0], x.shape()[1]);
    let ghost start = x.val();
    let ghost scale = head_scale::<T::S>(head_dim);
    proof {
        assert(x.shape() =~= seq![s, n]);
    }
    let mut block_inputs: Vec<T> = Vec::new();
    let mut block_saveds: Vec<BlockSaved<T>> = Vec::new();
    block_inputs.push(x);
    let mut j: usize = 0;
    while j < blocks.len()
        invariant
            j <= blocks@.len(),
            blocks_fit(blocks@, s, n),
            scale == head_scale::<T::S>(head_dim),
            block_inputs@.len() == j + 1,
            block_saveds@.len() == j,
            forall|i: int| 0 <= i <= j ==> is_mat(#[trigger] block_inputs@[i], s, n),
            forall|i: int|
                0 <= i < j ==> block_saved_fits(
                    #[trigger] block_saveds@[i],
                    blocks@[i].heads@,
                    blocks@[i].ffn,
                    seq![s, n],
                ),
            settled::<T>() ==> forall|i: int|
                0 <= i <= j ==> (#[trigger] block_inputs@[i]).val() == blocks_out_of(
                    start,
                    blocks@,
                    scale,
                    i as nat,
                ),
            settled::<T>() ==> forall|i: int|
                0 <= i < j ==> block_saved_ok(
                    #[trigger] block_saveds@[i],
                    blocks_out_of(start, blocks@, scale, i as nat),
                    heads_val(blocks@[i].heads@),
                    ffn_val(blocks@[i].ffn),
                    scale,
                ),
        decreases blocks@.len() - j,
    {
        let b = &blocks[j];
        proof {
            assert(is_mat(block_inputs@[j as int], s, n));
            assert(block_weights_fit(blocks@[j as int].heads@, blocks@[j as int].ffn, s, n));
        }
        let (out, saved) = block_forward_save(
            &block_inputs[j],
            b.heads.as_slice(),
            &b.ffn,
            head_dim,
        );
        block_saveds.push(saved);
        block_inputs.push(out);
        j += 1;
    }
    proof {
        assert(is_mat(block_inputs@[j as int], s, n));
    }
    let pre_lm_head = block_inputs[j].rmsnorm();
    let lm_head_w = embed.transpose_2d();
    let logits = pre_lm_head.matmul(&lm_head_w);
    (logits, WindowSaved { block_inputs, block_saveds, pre_lm_head, lm_head_w })
}

/// The gradients `bg` of block `j` are those for incoming gradient `g`.
pub open spec fn block_step_ok<T: MatMul + Add + Mul + MulScalar + Transpose2D + SoftmaxBackward + CausalMaskBackward + RopeBackward + RmsNormBackward + SiluBackward>(
    bg: BlockGrads<T>,
    g: T::V,
    sv: WindowSaved<T>,
    bs: Seq<DeviceBlock<T>>,
    scale: T::S,
    j: int,
) -> bool {
    block_grads_ok(
        bg,
        g,
        sv.block_inputs@[j].val(),
        sv.block_saveds@[j],
        heads_val(bs[j].heads@),
        ffn_val(bs[j].ffn),
        scale,
        bs[j].heads@.len(),
    )
}

/// The gradient of the last block's output, for plain projections.
pub open spec fn final_grad_of<T: MatMul + Add + Mul + MulScalar + Transpose2D + SoftmaxBackward + CausalMaskBackward + RopeBackward + RmsNormBackward + SiluBackward>(grad_logits: T::V, sv: WindowSaved<T>) -> T::V {
    T::rmsnorm_backward_of(
        left_grad::<T>(grad_logits, sv.lm_head_w.val()),
        sv.block_inputs@[sv.block_inputs@.len() - 1].val(),
    )
}

/// The gradients of a window of plain projections: each block's are those for the
/// gradient that the block after it passes back, and the last block's those for
/// what the tied projection passes back.
pub open spec fn window_grads_ok<T: MatMul + Add + Mul + MulScalar + Transpose2D + SoftmaxBackward + CausalMaskBackward + RopeBackward + RmsNormBackward + SiluBackward>(
    r: WindowGrads<T>,
    grad_logits: T::V,
    sv: WindowSaved<T>,
    bs: Seq<DeviceBlock<T>>,
    scale: T::S,
) -> bool {
    let last = final_grad_of::<T>(grad_logits, sv);
    &&& r.grad_embed.val() == T::transpose_2d_of(
        right_grad::<T>(sv.pre_lm_head.val(), grad_logits),
    )
    &&& r.grad_x.val() == if bs.len() == 0 {
        last
    } else {
        r.blocks@[0].grad_x.val()
    }
    &&& forall|j: int|
        0 <= j < bs.len() ==> block_step_ok(
            #[trigger] r.blocks@[j],
            if j == bs.len() - 1 {
                last
            } else {
                r.blocks@[j + 1].grad_x.val()
            },
            sv,
            bs,
            scale,
            j,
        )
}

/// The backward pass of a window of plain projections, from the gradient of the logits.
#[verifier::rlimit(40)]
pub fn window_backward<T: MatMul + Add + Mul + MulScalar + Transpose2D + SoftmaxBackward + CausalMaskBackward + RopeBackward + RmsNormBackward + SiluBackward>(
    grad_logits: &T,
    saved: &WindowSaved<T>,
    blocks: &[DeviceBlock<T>],
    head_dim: usize,
) -> (r: WindowGrads<T>)
    requires
        grad_logits.sound(),
        grad_logits.shape().len() == 2,
        saved.pre_lm_head.shape().len() == 2,
        window_saved_fits(
            *saved,
            blocks@,
            grad_logits.shape()[0],
            saved.pre_lm_head.shape()[1],
            grad_logits.shape()[1],
        ),
        blocks_fit(blocks@, grad_logits.shape()[0], saved.pre_lm_head.shape()[1]),
    ensures
        window_grads_fit(
            r,
            blocks@,
            grad_logits.shape()[0],
            saved.pre_lm_head.shape()[1],
            grad_logits.shape()[1],
        ),
        settled::<T>() ==> window_grads_ok(
            r,
            grad_logits.val(),
            *saved,
            blocks@,
            head_scale(head_dim),
        ),
{
    let ghost (s, n) = (grad_logits.shape()[0], saved.pre_lm_head.shape()[1]);
    let ghost scale = head_scale::<T::S>(head_dim);
    proof {
        assert(grad_logits.shape() =~= seq![s, grad_logits.shape()[1]]);
    }
    let (grad_pre, grad_w) = matmul_backward(grad_logits, &saved.pre_lm_head, &saved.lm_head_w);
    let grad_embed = grad_w.transpose_2d();
    let n_blocks: usize = blocks.len();
    proof {
        assert(is_mat(saved.block_inputs@[n_blocks as int], s, n));
    }
    let mut grad_x = grad_pre.rmsnorm_backward(&saved.block_inputs[n_blocks]);
    let ghost last = grad_x.val();
    let mut grads_rev: Vec<BlockGrads<T>> = Vec::new();
    let mut j: usize = n_blocks;
    while j > 0
        invariant
            j <= n_blocks,
            n_blocks == blocks@.len(),
            window_saved_fits(*saved, blocks@, s, n, grad_logits.shape()[1]),
            blocks_fit(blocks@, s, n),
            scale == head_scale::<T::S>(head_dim),
            is_mat(grad_x, s, n),
            grads_rev@.len() == n_blocks - j,
            grad_x.val() == if j == n_blocks {
                last
            } else {
                grads_rev@[grads_rev@.len() - 1].grad_x.val()
            },
            forall|i: int|
                0 <= i < grads_rev@.len() ==> block_grads_fit(
                    #[trigger] grads_rev@[i],
                    blocks@[n_blocks - 1 - i].heads@,
                    blocks@[n_blocks - 1 - i].ffn,
                    seq![s, n],
                    blocks@[n_blocks - 1 - i].heads@.len(),
                ),
            settled::<T>() ==> forall|i: int|
                0 <= i < grads_rev@.len() ==> block_step_ok(
                    #[trigger] grads_rev@[i],
                    if i == 0 {
                        last
                    } else {
                        grads_rev@[i - 1].grad_x.val()
                    },
                    *saved,
                    blocks@,
                    scale,
                    n_blocks - 1 - i,
                ),
        decreases j,
    {
        j -= 1;
        proof {
            assert(is_mat(saved.block_inputs@[j as int], s, n));
            assert(block_saved_fits(
                saved.block_saveds@[j as int],
                blocks@[j as int].heads@,
                blocks@[j as int].ffn,
                seq![s, n],
            ));
            assert(block_weights_fit(blocks@[j as int].heads@, blocks@[j as int].ffn, s, n));
        }
        let bg = block_backward(
            &grad_x,
            &saved.block_inputs[j],
            &saved.block_saveds[j],
            blocks[j].heads.as_slice(),
            &blocks[j].ffn,
            head_dim,
        );
        grad_x = bg.grad_x.duplicate();
        grads_rev.push(bg);
    }
    let mut out: Vec<BlockGrads<T>> = Vec::new();
    let ghost all = grads_rev@;
    while grads_rev.len() > 0
        invariant
            all.len() == n_blocks,
            grads_rev@.len() + out@.len() == n_blocks,
            grads_rev@ == all.take(grads_rev@.len() as int),
            forall|i: int|
                0 <= i < out@.len() ==> #[trigger] out@[i] == all[n_blocks - 1 - i],
        decreases grads_rev@.len(),
    {
        if let Some(g) = grads_rev.pop() {
            out.push(g);
            proof {
                assert(grads_rev@ =~= all.take(grads_rev@.len() as int));
            }
        }
    }
    let r = WindowGrads { grad_embed, grad_x, blocks: out };
    proof {
        assert(r.grad_embed.shape() =~= seq![grad_logits.shape()[1], n]);
        assert forall|i: int| 0 <= i < blocks@.len() implies block_grads_fit(
            #[trigger] r.blocks@[i],
            blocks@[i].heads@,
            blocks@[i].ffn,
            seq![s, n],
            blocks@[i].heads@.len(),
        ) by {
            assert(r.blocks@[i] == all[n_blocks - 1 - i]);
        }
        if settled::<T>() {
            assert forall|i: int| 0 <= i < blocks@.len() implies block_step_ok(
                #[trigger] r.blocks@[i],
                if i == blocks@.len() - 1 {
                    last
                } else {
                    r.blocks@[i + 1].grad_x.val()
                },
                *saved,
                blocks@,
                scale,
                i,
            ) by {
                assert(r.blocks@[i] == all[n_blocks - 1 - i]);
                if i < blocks@.len() - 1 {
                    assert(r.blocks@[i + 1] == all[n_blocks - 2 - i]);
                }
            }
        }
    }
    r
}

/// The activations after `n` blocks of quantised projections.
pub open spec fn blocks_out_bit_of<T: MatMul + Add + MulScalar + Transpose2D + Softmax + CausalMask + Rope + RmsNorm + Silu + Mul + BitLinear>(
    x: T::V,
    bs: Seq<DeviceBlock<T>>,
    scale: T::S,
    n: nat,
) -> T::V
    decreases n,
{
    if n == 0 {
        x
    } else {
        block_out_bit_of::<T>(
            blocks_out_bit_of(x, bs, scale, (n - 1) as nat),
            heads_val(bs[n - 1].heads@),
            ffn_val(bs[n - 1].ffn),
            scale,
        )
    }
}

/// The logits of an embedded window, for quantised projections.
pub open spec fn window_out_bit_of<T: MatMul + Add + MulScalar + Transpose2D + Softmax + CausalMask + Rope + RmsNorm + Silu + Mul + BitLinear>(
    x: T::V,
    bs: Seq<DeviceBlock<T>>,
    embed: T::V,
    scale: T::S,
) -> T::V {
    T::bit_linear_of(
        T::rmsnorm_of(blocks_out_bit_of(x, bs, scale, bs.len())),
        T::transpose_2d_of(embed),
    )
}

/// What a window of quantised projections saves.
pub open spec fn window_saved_bit_ok<T: MatMul + Add + MulScalar + Transpose2D + Softmax + CausalMask + Rope + RmsNorm + Silu + Mul + BitLinear>(
    sv: WindowSaved<T>,
    x: T::V,
    bs: Seq<DeviceBlock<T>>,
    embed: T::V,
    scale: T::S,
) -> bool {
    &&& forall|j: int|
        0 <= j <= bs.len() ==> (#[trigger] sv.block_inputs@[j]).val() == blocks_out_bit_of(
            x,
            bs,
            scale,
            j as nat,
        )
    &&& forall|j: int|
        0 <= j < bs.len() ==> block_saved_bit_ok(
            #[trigger] sv.block_saveds@[j],
            blocks_out_bit_of(x, bs, scale, j as nat),
            heads_val(bs[j].heads@),
            ffn_val(bs[j].ffn),
            scale,
        )
    &&& sv.pre_lm_head.val() == T::rmsnorm_of(blocks_out_bit_of(x, bs, scale, bs.len()))
    &&& sv.lm_head_w.val() == T::transpose_2d_of(embed)
}

/// The forward pass of an embedded window through blocks of quantised projections and
/// the tied last projection: the logits, and what the backward pass needs.
#[verifier::rlimit(40)]
pub fn window_forward_bitnet<T: MatMul + Add + MulScalar + Transpose2D + Softmax + CausalMask + Rope + RmsNorm + Silu + Mul + BitLinear>(
    x: T,
    blocks: &[DeviceBlock<T>],
    embed: &T,
    head_dim: usize,
) -> (r: (T, WindowSaved<T>))
    requires
        window_fits(x, blocks@, *embed),
    ensures
        is_mat(r.0, x.shape()[0], embed.shape()[0]),
        window_saved_fits(r.1, blocks@, x.shape()[0], x.shape()[1], embed.shape()[0]),
        settled::<T>() ==> {
            &&& r.0.val() == window_out_bit_of(x.val(), blocks@, embed.val(), head_scale(head_dim))
            &&& window_saved_bit_ok(r.1, x.val(), blocks@, embed.val(), head_scale(head_dim))
        },
{
    let ghost (s, n) = (x.shape()[0], x.shape()[1]);
    let ghost start = x.val();
    let ghost scale = head_scale::<T::S>(head_dim);
    proof {
        assert(x.shape() =~= seq![s, n]);
    }
    let mut block_inputs: Vec<T> = Vec::new();
    let mut block_saveds: Vec<BlockSaved<T>> = Vec::new();
    block_inputs.push(x);
    let mut j: usize = 0;
    while j < blocks.len()
        invariant
            j <= blocks@.len(),
            blocks_fit(blocks@, s, n),
            scale == head_scale::<T::S>(head_dim),
            block_inputs@.len() == j + 1,
            block_saveds@.len() == j,
            forall|i: int| 0 <= i <= j ==> is_mat(#[trigger] block_inputs@[i], s, n),
            forall|i: int|
                0 <= i < j ==> block_saved_fits(
                    #[trigger] block_saveds@[i],
                    blocks@[i].heads@,
                    blocks@[i].ffn,
                    seq![s, n],
                ),
            settled::<T>() ==> forall|i: int|
                0 <= i <= j ==> (#[trigger] block_inputs@[i]).val() == blocks_out_bit_of(
                    start,
                    blocks@,
                    scale,
                    i as nat,
                ),
            settled::<T>() ==> forall|i: int|
                0 <= i < j ==> block_saved_bit_ok(
                    #[trigger] block_saveds@[i],
                    blocks_out_bit_of(start, blocks@, scale, i as nat),
                    heads_val(blocks@[i].heads@),
                    ffn_val(blocks@[i].ffn),
                    scale,
                ),
        decreases blocks@.len() - j,
    {
        let b = &blocks[j];
        proof {
            assert(is_mat(block_inputs@[j as int], s, n));
            assert(block_weights_fit(blocks@[j as int].heads@, blocks@[j as int].ffn, s, n));
        }
        let (out, saved) = block_forward_save_bitnet(
            &block_inputs[j],
            b.heads.as_slice(),
            &b.ffn,
            head_dim,
        );
        block_saveds.push(saved);
        block_inputs.push(out);
        j += 1;
    }
    proof {
        assert(is_mat(block_inputs@[j as int], s, n));
    }
    let pre_lm_head = block_inputs[j].rmsnorm();
    let lm_head_w = embed.transpose_2d();
    let logits = pre_lm_head.bit_linear(&lm_head_w);
    (logits, WindowSaved { block_inputs, block_saveds, pre_lm_head, lm_head_w })
}

/// The gradients `bg` of block `j` are those for incoming gradient `g`.
pub open spec fn block_step_bit_ok<T: MatMul + Add + Mul + MulScalar + Transpose2D + SoftmaxBackward + CausalMaskBackward + RopeBackward + RmsNormBackward + SiluBackward + QuantiseActsSTE + QuantiseWeightsSTE>(
    bg: BlockGrads<T>,
    g: T::V,
    sv: WindowSaved<T>,
    bs: Seq<DeviceBlock<T>>,
    scale: T::S,
    j: int,
) -> bool {
    block_grads_bit_ok(
        bg,
        g,
        sv.block_inputs@[j].val(),
        sv.block_saveds@[j],
        heads_val(bs[j].heads@),
        ffn_val(bs[j].ffn),
        scale,
        bs[j].heads@.len(),
    )
}

/// The gradient of the last block's output, for quantised projections.
pub open spec fn final_grad_bit_of<T: MatMul + Add + Mul + MulScalar + Transpose2D + SoftmaxBackward + CausalMaskBackward + RopeBackward + RmsNormBackward + SiluBackward + QuantiseActsSTE + QuantiseWeightsSTE>(grad_logits: T::V, sv: WindowSaved<T>) -> T::V {
    T::rmsnorm_backward_of(
        left_grad::<T>(grad_logits, T::quantise_weights_ste_of(sv.lm_head_w.val())),
        sv.block_inputs@[sv.block_inputs@.len() - 1].val(),
    )
}

/// The gradients of a window of quantised projections: each block's are those for the
/// gradient that the block after it passes back, and the last block's those for
/// what the tied projection passes back.
pub open spec fn window_grads_bit_ok<T: MatMul + Add + Mul + MulScalar + Transpose2D + SoftmaxBackward + CausalMaskBackward + RopeBackward + RmsNormBackward + SiluBackward + QuantiseActsSTE + QuantiseWeightsSTE>(
    r: WindowGrads<T>,
    grad_logits: T::V,
    sv: WindowSaved<T>,
    bs: Seq<DeviceBlock<T>>,
    scale: T::S,
) -> bool {
    let last = final_grad_bit_of::<T>(grad_logits, sv);
    &&& r.grad_embed.val() == T::transpose_2d_of(
        right_grad::<T>(T::quantise_acts_ste_of(sv.pre_lm_head.val()), grad_logits),
    )
    &&& r.grad_x.val() == if bs.len() == 0 {
        last
    } else {
        r.blocks@[0].grad_x.val()
    }
    &&& forall|j: int|
        0 <= j < bs.len() ==> block_step_bit_ok(
            #[trigger] r.blocks@[j],
            if j == bs.len() - 1 {
                last
            } else {
                r.blocks@[j + 1].grad_x.val()
            },
            sv,
            bs,
            scale,
            j,
        )
}

/// The backward pass of a window of quantised projections, from the gradient of the logits.
#[verifier::rlimit(40)]
pub fn window_backward_bitnet<T: MatMul + Add + Mul + MulScalar + Transpose2D + SoftmaxBackward + CausalMaskBackward + RopeBackward + RmsNormBackward + SiluBackward + QuantiseActsSTE + QuantiseWeightsSTE>(
    grad_logits: &T,
    saved: &WindowSaved<T>,
    blocks: &[DeviceBlock<T>],
    head_dim: usize,
) -> (r: WindowGrads<T>)
    requires
        grad_logits.sound(),
        grad_logits.shape().len() == 2,
        saved.pre_lm_head.shape().len() == 2,
        window_saved_fits(
            *saved,
            blocks@,
            grad_logits.shape()[0],
            saved.pre_lm_head.shape()[1],
            grad_logits.shape()[1],
        ),
        blocks_fit(blocks@, grad_logits.shape()[0], saved.pre_lm_head.shape()[1]),
    ensures
        window_grads_fit(
            r,
            blocks@,
            grad_logits.shape()[0],
            saved.pre_lm_head.shape()[1],
            grad_logits.shape()[1],
        ),
        settled::<T>() ==> window_grads_bit_ok(
            r,
            grad_logits.val(),
            *saved,
            blocks@,
            head_scale(head_dim),
        ),
{
    let ghost (s, n) = (grad_logits.shape()[0], saved.pre_lm_head.shape()[1]);
    let ghost scale = head_scale::<T::S>(head_dim);
    proof {
        assert(grad_logits.shape() =~= seq![s, grad_logits.shape()[1]]);
    }
    let (grad_pre, grad_w) = bit_linear_backward(grad_logits, &saved.pre_lm_head, &saved.lm_head_w);
    let grad_embed = grad_w.transpose_2d();
    let n_blocks: usize = blocks.len();
    proof {
        assert(is_mat(saved.block_inputs@[n_blocks as int], s, n));
    }
    let mut grad_x = grad_pre.rmsnorm_backward(&saved.block_inputs[n_blocks]);
    let ghost last = grad_x.val();
    let mut grads_rev: Vec<BlockGrads<T>> = Vec::new();
    let mut j: usize = n_blocks;
    while j > 0
        invariant
            j <= n_blocks,
            n_blocks == blocks@.len(),
            window_saved_fits(*saved, blocks@, s, n, grad_logits.shape()[1]),
            blocks_fit(blocks@, s, n),
            scale == head_scale::<T::S>(head_dim),
            is_mat(grad_x, s, n),
            grads_rev@.len() == n_blocks - j,
            grad_x.val() == if j == n_blocks {
                last
            } else {
                grads_rev@[grads_rev@.len() - 1].grad_x.val()
            },
            forall|i: int|
                0 <= i < grads_rev@.len() ==> block_grads_fit(
                    #[trigger] grads_rev@[i],
                    blocks@[n_blocks - 1 - i].heads@,
                    blocks@[n_blocks - 1 - i].ffn,
                    seq![s, n],
                    blocks@[n_blocks - 1 - i].heads@.len(),
                ),
            settled::<T>() ==> forall|i: int|
                0 <= i < grads_rev@.len() ==> block_step_bit_ok(
                    #[trigger] grads_rev@[i],
                    if i == 0 {
                        last
                    } else {
                        grads_rev@[i - 1].grad_x.val()
                    },
                    *saved,
                    blocks@,
                    scale,
                    n_blocks - 1 - i,
                ),
        decreases j,
    {
        j -= 1;
        proof {
            assert(is_mat(saved.block_inputs@[j as int], s, n));
            assert(block_saved_fits(
                saved.block_saveds@[j as int],
                blocks@[j as int].heads@,
                blocks@[j as int].ffn,
                seq![s, n],
            ));
            assert(block_weights_fit(blocks@[j as int].heads@, blocks@[j as int].ffn, s, n));
        }
        let bg = block_backward_bitnet(
            &grad_x,
            &saved.block_inputs[j],
            &saved.block_saveds[j],
            blocks[j].heads.as_slice(),
            &blocks[j].ffn,
            head_dim,
        );
        grad_x = bg.grad_x.duplicate();
        grads_rev.push(bg);
    }
    let mut out: Vec<BlockGrads<T>> = Vec::new();
    let ghost all = grads_rev@;
    while grads_rev.len() > 0
        invariant
            all.len() == n_blocks,
            grads_rev@.len() + out@.len() == n_blocks,
            grads_rev@ == all.take(grads_rev@.len() as int),
            forall|i: int|
                0 <= i < out@.len() ==> #[trigger] out@[i] == all[n_blocks - 1 - i],
        decreases grads_rev@.len(),
    {
        if let Some(g) = grads_rev.pop() {
            out.push(g);
            proof {
                assert(grads_rev@ =~= all.take(grads_rev@.len() as int));
            }
        }
    }
    let r = WindowGrads { grad_embed, grad_x, blocks: out };
    proof {
        assert(r.grad_embed.shape() =~= seq![grad_logits.shape()[1], n]);
        assert forall|i: int| 0 <= i < blocks@.len() implies block_grads_fit(
            #[trigger] r.blocks@[i],
            blocks@[i].heads@,
            blocks@[i].ffn,
            seq![s, n],
            blocks@[i].heads@.len(),
        ) by {
            assert(r.blocks@[i] == all[n_blocks - 1 - i]);
        }
        if settled::<T>() {
            assert forall|i: int| 0 <= i < blocks@.len() implies block_step_bit_ok(
                #[trigger] r.blocks@[i],
                if i == blocks@.len() - 1 {
                    last
                } else {
                    r.blocks@[i + 1].grad_x.val()
                },
                *saved,
                blocks@,
                scale,
                i,
            ) by {
                assert(r.blocks@[i] == all[n_blocks - 1 - i]);
                if i < blocks@.len() - 1 {
                    assert(r.blocks@[i + 1] == all[n_blocks - 2 - i]);
                }
            }
        }
    }
    r
}

/// The logits of an embedded window through blocks of plain projections.
pub fn window_inference<T: MatMul + Add + MulScalar + Transpose2D + Softmax + CausalMask + Rope + RmsNorm + Silu + Mul>(
    x: T,
    blocks: &[DeviceBlock<T>],
    embed: &T,
    head_dim: usize,
) -> (r: T)
    requires
        window_fits(x, blocks@, *embed),
    ensures
        is_mat(r, x.shape()[0], embed.shape()[0]),
        settled::<T>() ==> r.val() == window_out_of(
            x.val(),
            blocks@,
            embed.val(),
            head_scale(head_dim),
        ),
{
    let ghost (s, n) = (x.shape()[0], x.shape()[1]);
    let ghost start = x.val();
    let ghost scale = head_scale::<T::S>(head_dim);
    proof {
        assert(x.shape() =~= seq![s, n]);
    }
    let mut x = x;
    let mut j: usize = 0;
    while j < blocks.len()
        invariant
            j <= blocks@.len(),
            blocks_fit(blocks@, s, n),
            scale == head_scale::<T::S>(head_dim),
            is_mat(x, s, n),
            settled::<T>() ==> x.val() == blocks_out_of(start, blocks@, scale, j as nat),
        decreases blocks@.len() - j,
    {
        let b = &blocks[j];
        proof {
            assert(block_weights_fit(blocks@[j as int].heads@, blocks@[j as int].ffn, s, n));
        }
        x = block_inference(&x, b.heads.as_slice(), &b.ffn, head_dim);
        j += 1;
    }
    let lm_head_w = embed.transpose_2d();
    x.rmsnorm().matmul(&lm_head_w)
}

/// Where the outputs of a window lie in one flat buffer: the loss of each row,
/// the last projection's share of the embedding gradient, the gradient of the
/// embedded window, and the gradient of every other weight in the one order.
pub struct StepLayout {
    pub loss: usize,
    pub lm_head_w_t: usize,
    pub x_pre_blocks: usize,
    pub weights: Vec<usize>,
    pub total: usize,
}

/// The sum of the first `k` sizes.
pub open spec fn size_sum(sizes: Seq<usize>, k: nat) -> nat
    decreases k,
{
    if k == 0 {
        0
    } else {
        size_sum(sizes, (k - 1) as nat) + sizes[k - 1] as nat
    }
}

/// The items before the weights' gradients.
pub open spec fn head_room(seq: usize, hidden: usize, vocab: usize) -> int {
    seq + vocab * hidden + seq * hidden
}

/// The slots lie one after the other without a gap.
pub open spec fn layout_ok(
    l: StepLayout,
    seq: usize,
    hidden: usize,
    vocab: usize,
    sizes: Seq<usize>,
) -> bool {
    &&& l.loss == 0
    &&& l.lm_head_w_t == seq
    &&& l.x_pre_blocks == seq + vocab * hidden
    &&& l.weights@.len() == sizes.len()
    &&& forall|k: int|
        0 <= k < sizes.len() ==> #[trigger] l.weights@[k] == head_room(seq, hidden, vocab)
            + size_sum(sizes, k as nat)
    &&& l.total == head_room(seq, hidden, vocab) + size_sum(sizes, sizes.len())
}

/// A longer sum is not smaller.
proof fn lemma_sum_grows(sizes: Seq<usize>, j: nat, k: nat)
    requires
        j <= k,
    ensures
        size_sum(sizes, j) <= size_sum(sizes, k),
    decreases k,
{
    if j < k {
        lemma_sum_grows(sizes, j, (k - 1) as nat);
    }
}

/// Lays out the outputs of a window whose weights have these sizes.
pub fn step_layout(seq: usize, hidden: usize, vocab: usize, sizes: &[usize]) -> (r: StepLayout)
    requires
        head_room(seq, hidden, vocab) + size_sum(sizes@, sizes@.len()) <= usize::MAX,
    ensures
        layout_ok(r, seq, hidden, vocab, sizes@),
{
    proof {
        assert(0 <= vocab * hidden) by (nonlinear_arith)
            requires
                vocab >= 0,
                hidden >= 0,
        ;
        assert(0 <= seq * hidden) by (nonlinear_arith)
            requires
                seq >= 0,
                hidden >= 0,
        ;
    }
    let lm_head_w_t: usize = seq;
    let x_pre_blocks: usize = lm_head_w_t + vocab * hidden;
    let mut next: usize = x_pre_blocks + seq * hidden;
    let mut weights: Vec<usize> = Vec::new();
    let mut k: usize = 0;
    while k < sizes.len()
        invariant
            k <= sizes@.len(),
            head_room(seq, hidden, vocab) + size_sum(sizes@, sizes@.len()) <= usize::MAX,
            next == head_room(seq, hidden, vocab) + size_sum(sizes@, k as nat),
            weights@.len() == k,
            forall|q: int|
                0 <= q < k ==> #[trigger] weights@[q] == head_room(seq, hidden, vocab) + size_sum(
                    sizes@,
                    q as nat,
                ),
        decreases sizes@.len() - k,
    {
        proof {
            lemma_sum_grows(sizes@, (k + 1) as nat, sizes@.len());
        }
        weights.push(next);
        next = next + sizes[k];
        k += 1;
    }
    StepLayout { loss: 0, lm_head_w_t, x_pre_blocks, weights, total: next }
}

/// No two slots of a layout overlap, and each ends within the buffer.
pub proof fn law_slots_disjoint(
    l: StepLayout,
    seq: usize,
    hidden: usize,
    vocab: usize,
    sizes: Seq<usize>,
    j: int,
    k: int,
)
    requires
        layout_ok(l, seq, hidden, vocab, sizes),
        0 <= j < k < sizes.len(),
    ensures
        l.x_pre_blocks + seq * hidden <= l.weights@[j],
        l.weights@[j] + sizes[j] <= l.weights@[k],
        l.weights@[k] + sizes[k] <= l.total,
{
    lemma_sum_grows(sizes, (j + 1) as nat, k as nat);
    lemma_sum_grows(sizes, (k + 1) as nat, sizes.len());
    assert(l.weights@[j] == head_room(seq, hidden, vocab) + size_sum(sizes, j as nat));
    assert(l.weights@[k] == head_room(seq, hidden, vocab) + size_sum(sizes, k as nat));
}

/// The gradients of a block's weights, arranged as the weights are.
pub open spec fn arranged_grads<T>(b: BlockGrads<T>) -> BlockOf<T> {
    BlockOf {
        heads: Seq::new(
            b.head_grads@.len(),
            |i: int|
                HeadOf {
                    w_q: b.head_grads@[i].grad_w_q,
                    w_k: b.head_grads@[i].grad_w_k,
                    w_v: b.head_grads@[i].grad_w_v,
                    w_o: b.head_grads@[i].grad_w_o,
                },
        ),
        gate: b.grad_w_gate,
        up: b.grad_w_up,
        down: b.grad_w_down,
    }
}

/// The gradients of a block's weights in the one order of weights: the four of each
/// head, then those of the feed-forward layer.
pub fn weight_grads<T>(b: &BlockGrads<T>) -> (r: Vec<&T>)
    ensures
        r@.len() == block_items(arranged_grads(*b)).len(),
        r@.len() == 4 * b.head_grads@.len() + 3,
        forall|k: int|
            0 <= k < r@.len() ==> *(#[trigger] r@[k]) == block_items(arranged_grads(*b))[k],
{
    let ghost hs = arranged_grads(*b).heads;
    let ghost mut done: Seq<T> = seq![];
    let mut out: Vec<&T> = Vec::new();
    let mut i: usize = 0;
    while i < b.head_grads.len()
        invariant
            i <= b.head_grads@.len(),
            hs == arranged_grads(*b).heads,
            done == heads_items(hs, i as nat),
            out@.len() == done.len(),
            forall|k: int| 0 <= k < out@.len() ==> *(#[trigger] out@[k]) == done[k],
        decreases b.head_grads@.len() - i,
    {
        let h = &b.head_grads[i];
        out.push(&h.grad_w_q);
        out.push(&h.grad_w_k);
        out.push(&h.grad_w_v);
        out.push(&h.grad_w_o);
        proof {
            done = done.push(h.grad_w_q).push(h.grad_w_k).push(h.grad_w_v).push(h.grad_w_o);
            assert(done =~= heads_items(hs, (i + 1) as nat));
        }
        i += 1;
    }
    out.push(&b.grad_w_gate);
    out.push(&b.grad_w_up);
    out.push(&b.grad_w_down);
    proof {
        lemma_heads_len(hs, hs.len());
        done = done.push(b.grad_w_gate).push(b.grad_w_up).push(b.grad_w_down);
        assert(done =~= block_items(arranged_grads(*b)));
    }
    out
}

/// The numbers of items of shapes.
pub open spec fn shape_sizes(shapes: Seq<Vec<usize>>) -> Seq<usize> {
    Seq::new(shapes.len(), |k: int| volume(shapes[k]@) as usize)
}

/// A matrix cut out of a buffer.
pub open spec fn cut<T>(host: Seq<T>, at: int, dims: Seq<usize>) -> Array<T> {
    Array { data: host.subrange(at, at + volume(dims)), dims }
}

/// The loss and the gradients of an embedded window of plain projections: the forward
/// pass, the mean loss over its rows, the gradient of that, and the backward pass.
pub fn window_grads<T: MatMul + Add + Mul + MulScalar + Transpose2D + Softmax + SoftmaxBackward + CausalMask + CausalMaskBackward + Rope + RopeBackward + RmsNorm + RmsNormBackward + Silu + SiluBackward + CrossEntropy + CrossEntropyBackward>(
    x: T,
    blocks: &[DeviceBlock<T>],
    embed: &T,
    targets: &[usize],
    head_dim: usize,
) -> (r: (T::S, WindowGrads<T>))
    requires
        window_fits(x, blocks@, *embed),
        targets@.len() == x.shape()[0],
        ids_below(targets@, embed.shape()[0]),
    ensures
        window_grads_fit(r.1, blocks@, x.shape()[0], x.shape()[1], embed.shape()[0]),
        settled::<T>() ==> ({
            let scale = head_scale(head_dim);
            let logits = window_out_of(x.val(), blocks@, embed.val(), scale);
            let g = T::cross_entropy_backward_of(T::probs_of(logits), targets@, x.shape()[0]);
            &&& r.0 == T::loss_of(logits, targets@)
            &&& exists|sv: WindowSaved<T>|
                {
                    &&& #[trigger] window_saved_ok(sv, x.val(), blocks@, embed.val(), scale)
                    &&& window_grads_ok(r.1, g, sv, blocks@, scale)
                }
        }),
{
    let ghost start = x;
    let seq: usize = targets.len();
    let (logits, saved) = window_forward(x, blocks, embed, head_dim);
    let (loss, probs) = cross_entropy_forward_save(&logits, targets);
    let grad_logits = cross_entropy_backward(&probs, targets, seq);
    let grads = window_backward(&grad_logits, &saved, blocks, head_dim);
    proof {
        if settled::<T>() {
            let scale = head_scale::<T::S>(head_dim);
            assert(window_saved_ok(saved, start.val(), blocks@, embed.val(), scale));
        }
    }
    (loss, grads)
}

/// The gradient of the tied embedding: every row of the embedded window's
/// gradient added to the row it came from, and then the last projection's share.
pub open spec fn tied_grad_of<T: Float>(
    grad_x: Array<T>,
    from_lm: Array<T>,
    ids: Seq<usize>,
) -> Array<T> {
    add_of(embed_grad_of(grad_x, from_lm, ids), from_lm)
}

/// The gradient of the tied embedding.
pub fn tied_embed_grad<T: Float>(grad_x: &Tensor<T>, from_lm: &Tensor<T>, ids: &[usize]) -> (r:
    Tensor<T>)
    requires
        grad_x.wf(),
        from_lm.wf(),
        grad_x.shape@.len() == 2,
        from_lm.shape@.len() == 2,
        grad_x.shape@[0] == ids@.len(),
        grad_x.shape@[1] == from_lm.shape@[1],
        ids_below(ids@, from_lm.shape@[0]),
    ensures
        r.wf(),
        r.shape@ == from_lm.shape@,
        deterministic::<T>() ==> r@ == tied_grad_of(grad_x@, from_lm@, ids@),
{
    let gathered = grad_x.embed_grad(from_lm, ids);
    Tensor::add(&gathered, from_lm)
}

/// A matrix of a shape cut out of a buffer.
fn cut_out<T: Float>(host: &[T], at: usize, shape: Vec<usize>) -> (r: Tensor<T>)
    requires
        countable(shape@),
        at + volume(shape@) <= host@.len(),
    ensures
        r.wf(),
        r@ == cut(host@, at as int, shape@),
{
    let n: usize = count_items(shape.as_slice());
    proof {
        assert(host@.len() == host.len());
    }
    let data = copy_slice(slice_subrange(host, at, at + n));
    let r = Tensor { data, shape };
    proof {
        assert(r@ =~= cut(host@, at as int, shape@));
    }
    r
}

/// The mean of the row losses.
pub open spec fn mean_of_rows<T: Float>(s: Seq<T>) -> T {
    fdiv(fsum(s), fcount::<T>(s.len() as usize))
}

/// Assembles the gradients of every weight in the one order, the tied embedding
/// first, and the mean loss, from the flat buffer of a window's outputs.
pub fn assemble_grads<T: Float>(
    host: &[T],
    layout: &StepLayout,
    ids: &[usize],
    hidden: usize,
    vocab: usize,
    shapes: &[Vec<usize>],
) -> (r: (Vec<Tensor<T>>, T))
    requires
        layout_ok(*layout, ids@.len() as usize, hidden, vocab, shape_sizes(shapes@)),
        host@.len() == layout.total,
        ids@.len() <= usize::MAX,
        ids_below(ids@, vocab),
        forall|k: int| 0 <= k < shapes@.len() ==> countable((#[trigger] shapes@[k])@),
    ensures
        r.0@.len() == 1 + shapes@.len(),
        forall|k: int|
            0 <= k < shapes@.len() ==> {
                &&& (#[trigger] r.0@[k + 1]).wf()
                &&& r.0@[k + 1]@ == cut(host@, layout.weights@[k] as int, shapes@[k]@)
            },
        r.0@[0].wf(),
        r.0@[0].shape@ == seq![vocab, hidden],
        deterministic::<T>() ==> r.0@[0]@ == tied_grad_of(
            cut(host@, layout.x_pre_blocks as int, seq![ids@.len() as usize, hidden]),
            cut(host@, layout.lm_head_w_t as int, seq![vocab, hidden]),
            ids@,
        ),
        deterministic::<T>() ==> r.1 == mean_of_rows(host@.take(ids@.len() as int)),
{
    let seq: usize = ids.len();
    let ghost sizes = shape_sizes(shapes@);
    proof {
        lemma_sum_grows(sizes, 0, sizes.len());
        assert(host@.len() == host.len());
        assert(0 <= vocab * hidden) by (nonlinear_arith)
            requires
                vocab >= 0,
                hidden >= 0,
        ;
        assert(0 <= seq * hidden) by (nonlinear_arith)
            requires
                seq >= 0,
                hidden >= 0,
        ;
        lemma_countable2(seq![vocab, hidden]);
        lemma_countable2(seq![seq, hidden]);
    }
    let loss_rows = slice_subrange(host, layout.loss, layout.loss + seq);
    let loss = sum(loss_rows).over(T::from_count(seq));
    let mut lm_shape: Vec<usize> = Vec::new();
    lm_shape.push(vocab);
    lm_shape.push(hidden);
    let mut x_shape: Vec<usize> = Vec::new();
    x_shape.push(seq);
    x_shape.push(hidden);
    proof {
        assert(lm_shape@ =~= seq![vocab, hidden]);
        assert(x_shape@ =~= seq![seq, hidden]);
    }
    let from_lm = cut_out(host, layout.lm_head_w_t, lm_shape);
    let grad_x = cut_out(host, layout.x_pre_blocks, x_shape);
    let mut out: Vec<Tensor<T>> = Vec::new();
    out.push(tied_embed_grad(&grad_x, &from_lm, ids));
    let mut k: usize = 0;
    while k < shapes.len()
        invariant
            k <= shapes@.len(),
            layout_ok(*layout, seq, hidden, vocab, sizes),
            sizes == shape_sizes(shapes@),
            host@.len() == layout.total,
            0 <= head_room(seq, hidden, vocab),
            forall|k: int| 0 <= k < shapes@.len() ==> countable((#[trigger] shapes@[k])@),
            out@.len() == k + 1,
            out@[0].wf(),
            out@[0].shape@ == seq![vocab, hidden],
            deterministic::<T>() ==> out@[0]@ == tied_grad_of(grad_x@, from_lm@, ids@),
            forall|q: int|
                0 <= q < k ==> {
                    &&& (#[trigger] out@[q + 1]).wf()
                    &&& out@[q + 1]@ == cut(host@, layout.weights@[q] as int, shapes@[q]@)
                },
        decreases shapes@.len() - k,
    {
        proof {
            let v = volume(shapes@[k as int]@);
            assert(countable(shapes@[k as int]@));
            assert(shapes@[k as int]@.take(shapes@[k as int]@.len() as int)
                =~= shapes@[k as int]@);
            assert(v <= usize::MAX);
            assert(sizes[k as int] == v);
            lemma_sum_grows(sizes, (k + 1) as nat, sizes.len());
            assert(layout.weights@[k as int] == head_room(seq, hidden, vocab) + size_sum(
                sizes,
                k as nat,
            ));
        }
        out.push(cut_out(host, layout.weights[k], copy_slice(shapes[k].as_slice())));
        k += 1;
    }
    proof {
        assert(loss_rows@ =~= host@.take(ids@.len() as int));
    }
    (out, loss)
}

} // verus!
