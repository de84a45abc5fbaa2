//! What the passes over plain projections give on tensors in memory.
use crate::agreement::{grid, lemma_product_row, lemma_row, lemma_transpose_col};
use crate::attention::attend_of;
use crate::device::{
    block_grads_ok, block_out_of, ffn_grads_of, ffn_saved_val, ffn_val, head_grads_of, head_out_of,
    heads_grad_of, heads_sum_of, heads_val, saved_vals, weight_grads_val, weights_only, BlockGrads,
    BlockSaved, FfnWeights, HeadWeights,
};
use crate::exact::lemma_dot_sum;
use crate::float::{fmul, fsum, Float};
use crate::ops::{rmsnorm_grad_of, rmsnorm_of, rope_of, silu_of};
use crate::step::{
    blocks_out_of, window_grads_ok, window_out_of, DeviceBlock, WindowGrads, WindowSaved,
};
use crate::tensor::{add_of, matmul_of, mul_of, transpose_of, Array, Tensor};
use vstd::prelude::*;

verus! {

/// A head turns its queries and keys, weighs its values by their scores, and projects.
pub proof fn law_plain_head_mixes_values<T: Float>(
    x: Array<T>,
    w: HeadWeights<Array<T>>,
    scale: T,
)
    ensures
        head_out_of::<Tensor<T>>(x, w, scale) == matmul_of(
            matmul_of(
                attend_of(
                    rope_of(matmul_of(x, w.w_q)),
                    rope_of(matmul_of(x, w.w_k)),
                    scale,
                ),
                matmul_of(x, w.w_v),
            ),
            w.w_o,
        ),
{
}

/// The outputs of the heads add up: one head more adds its own.
pub proof fn law_plain_heads_add_up<T: Float>(
    x: Array<T>,
    heads: Seq<HeadWeights<Array<T>>>,
    h: HeadWeights<Array<T>>,
    scale: T,
)
    requires
        heads.len() > 0,
    ensures
        heads_sum_of::<Tensor<T>>(x, heads.push(h), scale, (heads.len() + 1) as nat) == add_of(
            heads_sum_of::<Tensor<T>>(x, heads, scale, heads.len()),
            head_out_of::<Tensor<T>>(x, h, scale),
        ),
        heads_sum_of::<Tensor<T>>(x, seq![h], scale, 1) == head_out_of::<Tensor<T>>(x, h, scale),
{
    lemma_heads_alone(x, heads, heads.push(h), scale, heads.len());
    assert(heads.push(h)[heads.len() as int] == h);
}

/// The sum over the first heads does not depend on the others.
proof fn lemma_heads_alone<T: Float>(
    x: Array<T>,
    a: Seq<HeadWeights<Array<T>>>,
    b: Seq<HeadWeights<Array<T>>>,
    scale: T,
    n: nat,
)
    requires
        0 < n <= a.len(),
        n <= b.len(),
        forall|k: int| 0 <= k < n ==> #[trigger] a[k] == b[k],
    ensures
        heads_sum_of::<Tensor<T>>(x, a, scale, n) == heads_sum_of::<Tensor<T>>(x, b, scale, n),
    decreases n,
{
    assert(a[0] == b[0]);
    if n > 1 {
        lemma_heads_alone(x, a, b, scale, (n - 1) as nat);
        assert(a[n - 1] == b[n - 1]);
    }
}

/// A block adds to the stream what its heads make of it normalised, and then what its gated
/// layer makes of the sum normalised.
pub proof fn law_plain_block_adds_to_stream<T: Float>(
    x: Array<T>,
    heads: Seq<HeadWeights<Array<T>>>,
    ffn: FfnWeights<Array<T>>,
    scale: T,
)
    ensures
        ({
            let mid = add_of(
                x,
                heads_sum_of::<Tensor<T>>(rmsnorm_of(x), heads, scale, heads.len()),
            );
            let y = rmsnorm_of(mid);
            block_out_of::<Tensor<T>>(x, heads, ffn, scale) == add_of(
                mid,
                matmul_of(
                    mul_of(silu_of(matmul_of(y, ffn.w_gate)), matmul_of(y, ffn.w_up)),
                    ffn.w_down,
                ),
            )
        }),
{
}

/// Blocks run one after the other: one block more runs on what the others give.
pub proof fn law_plain_blocks_run_in_order<T: Float>(
    x: Array<T>,
    bs: Seq<DeviceBlock<Tensor<T>>>,
    b: DeviceBlock<Tensor<T>>,
    scale: T,
)
    ensures
        blocks_out_of::<Tensor<T>>(x, bs.push(b), scale, (bs.len() + 1) as nat) == block_out_of::<
            Tensor<T>,
        >(
            blocks_out_of::<Tensor<T>>(x, bs, scale, bs.len()),
            heads_val(b.heads@),
            ffn_val(b.ffn),
            scale,
        ),
        blocks_out_of::<Tensor<T>>(x, bs, scale, 0) == x,
{
    lemma_blocks_alone(x, bs, bs.push(b), scale, bs.len());
    assert(bs.push(b)[bs.len() as int] == b);
}

/// What the first blocks give does not depend on the others.
proof fn lemma_blocks_alone<T: Float>(
    x: Array<T>,
    a: Seq<DeviceBlock<Tensor<T>>>,
    b: Seq<DeviceBlock<Tensor<T>>>,
    scale: T,
    n: nat,
)
    requires
        n <= a.len(),
        n <= b.len(),
        forall|k: int| 0 <= k < n ==> #[trigger] a[k] == b[k],
    ensures
        blocks_out_of::<Tensor<T>>(x, a, scale, n) == blocks_out_of::<Tensor<T>>(x, b, scale, n),
    decreases n,
{
    if n > 0 {
        lemma_blocks_alone(x, a, b, scale, (n - 1) as nat);
        assert(a[n - 1] == b[n - 1]);
    }
}

/// The logits of a place are the inner products of its normalised stream with the embedding
/// of every token.
pub proof fn law_plain_logits_compare_with_embeddings<T: Float>(
    x: Array<T>,
    bs: Seq<DeviceBlock<Tensor<T>>>,
    embed: Array<T>,
    scale: T,
    s: usize,
    h: usize,
    v: usize,
    i: nat,
    t: nat,
)
    requires
        grid(rmsnorm_of(blocks_out_of::<Tensor<T>>(x, bs, scale, bs.len())), s, h),
        grid(embed, v, h),
        i < s,
        t < v,
    ensures
        ({
            let y = rmsnorm_of(blocks_out_of::<Tensor<T>>(x, bs, scale, bs.len()));
            window_out_of::<Tensor<T>>(x, bs, embed, scale).row(i)[t as int] == fsum(
                Seq::new(h as nat, |p: int| fmul(y.row(i)[p], embed.row(t)[p])),
            )
        }),
{
    let y = rmsnorm_of(blocks_out_of::<Tensor<T>>(x, bs, scale, bs.len()));
    let w = transpose_of(embed);
    lemma_transpose_col(embed, v, h, t);
    lemma_product_row(y, w, s, h, v, i);
    lemma_row(y, s, h, i);
    lemma_row(embed, v, h, t);
    lemma_dot_sum(y.row(i), w.col(t), h as nat);
}

/// A block hands back the gradient of the stream along both of its branches: as it is, and
/// through the normalised gated layer, and that again as it is and through the normalised
/// heads.
pub proof fn law_plain_block_hands_back_both_branches<T: Float>(
    r: BlockGrads<Tensor<T>>,
    g: Array<T>,
    x: Array<T>,
    sv: BlockSaved<Tensor<T>>,
    heads: Seq<HeadWeights<Array<T>>>,
    ffn: FfnWeights<Array<T>>,
    scale: T,
    i: int,
)
    requires
        block_grads_ok::<Tensor<T>>(r, g, x, sv, heads, ffn, scale, heads.len()),
        0 <= i < heads.len(),
    ensures
        ({
            let f = ffn_grads_of::<Tensor<T>>(g, sv.y2_pre@, ffn_saved_val(sv.ffn_saved), ffn);
            let mid = add_of(g, rmsnorm_grad_of(f.grad_x, sv.x1@));
            let svs = saved_vals(sv.head_saveds@);
            let back = heads_grad_of::<Tensor<T>>(mid, sv.y1_pre@, svs, heads, scale, heads.len());
            &&& r.grad_x@ == add_of(mid, rmsnorm_grad_of(back, x))
            &&& weight_grads_val(r.head_grads@[i]) == weights_only(
                head_grads_of::<Tensor<T>>(mid, sv.y1_pre@, svs[i], heads[i], scale),
            )
            &&& r.grad_w_gate@ == f.grad_w_gate
            &&& r.grad_w_up@ == f.grad_w_up
            &&& r.grad_w_down@ == f.grad_w_down
        }),
{
}

/// In a window every block gets the gradient that the block after it hands back, the last
/// one that of the logits through the tied projection and the normalisation.
pub proof fn law_plain_window_hands_back_block_by_block<T: Float>(
    r: WindowGrads<Tensor<T>>,
    g: Array<T>,
    sv: WindowSaved<Tensor<T>>,
    bs: Seq<DeviceBlock<Tensor<T>>>,
    scale: T,
    j: int,
)
    requires
        window_grads_ok::<Tensor<T>>(r, g, sv, bs, scale),
        0 <= j < bs.len(),
    ensures
        r.grad_embed@ == transpose_of(matmul_of(transpose_of(sv.pre_lm_head@), g)),
        r.grad_x@ == r.blocks@[0].grad_x@,
        block_grads_ok::<Tensor<T>>(
            r.blocks@[j],
            if j + 1 == bs.len() {
                rmsnorm_grad_of(
                    matmul_of(g, transpose_of(sv.lm_head_w@)),
                    sv.block_inputs@.last()@,
                )
            } else {
                r.blocks@[j + 1].grad_x@
            },
            sv.block_inputs@[j]@,
            sv.block_saveds@[j],
            heads_val(bs[j].heads@),
            ffn_val(bs[j].ffn),
            scale,
            bs[j].heads@.len(),
        ),
{
    assert(crate::step::block_step_ok(
        r.blocks@[j],
        if j == bs.len() - 1 {
            crate::step::final_grad_of::<Tensor<T>>(g, sv)
        } else {
            r.blocks@[j + 1].grad_x@
        },
        sv,
        bs,
        scale,
        j,
    ));
}

} // verus!
