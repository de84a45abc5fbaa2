//! The backward passes written out by hand give the gradients of the tape.
//!
//! A tape adds what its nodes pass back in the order of its nodes, the passes
//! written out by hand in an order of their own. The gradients are the same where
//! sums do not depend on their order.
use crate::attention::score_scale;
use crate::autograd::{back, contributions, entry_ok, seeded, Entry, NodeId, Step, Var};
use crate::bitlinear::{restored_acts, ternary_weights};
use crate::block::{block_arrays, block_steps, BlockWeights};
use crate::device::{
    block_grads_bit_ok, block_grads_fit, block_saved_bit_ok, ffn_val, head_scale, head_val,
    heads_val, is_mat, mean_grad_rows, weight_grads_fit, BlockGrads, CrossEntropyBackward, Device,
};
use crate::float::{deterministic, fcount, fdiv, fmul, fone, fzero, Float};
use crate::layout::{
    blocks_items, ffn_place, head_place, items, lemma_blocks_prefix, lemma_ffn_place,
    lemma_head_place, lemma_heads_len, lemma_items_map, map_block, map_model, same_block, BlockOf,
    HeadOf, ModelOf,
};
use crate::model::{
    block_shaped, block_vars, body_steps, consecutive, forward_steps, leaf_arrays, lemma_planted,
    tail_steps, BlockMasters, Model, ModelConfig, ModelLeaves,
};
use crate::ops::{
    cross_entropy_grad_of, embed_grad_of, embed_of, loss_grad_rows, rmsnorm_grad_of, rmsnorm_of,
    softmax_of,
};
use crate::step::{
    block_step_bit_ok, blocks_out_bit_of, final_grad_bit_of, tied_grad_of, window_grads_bit_ok,
    window_grads_fit, window_saved_bit_ok, DeviceBlock, WindowGrads, WindowSaved,
};
use crate::sweep::{
    added_at, all_untouched, block_apart, block_ffn_weights, block_made, block_mid_at,
    block_total_at, fed_grads_at, fit, head_apart, head_grads_at, head_weights, heads_weights,
    in_block, is_weight, lemma_acts_pass, lemma_back_sweep, lemma_block_made, lemma_block_match,
    lemma_block_sweep, lemma_block_values, lemma_fresh_sum, lemma_made_split, lemma_matmul_pass,
    lemma_pass_to_fresh, lemma_ready_sum, lemma_rmsnorm_add, lemma_shares_fit, lemma_sweep_one,
    lemma_sweep_split, lemma_transpose_pass, made_by, no_weight, only_at, only_at_two, order_free,
    ready, same_weights, share_none, sweep, to_input, to_weights, untouched, zeros,
};
use crate::tensor::{add_of, filled, flat, lemma_volume1, transpose_of, Array, Tensor};
use crate::train::{trace_grads, trace_ok, WindowTrace};
use vstd::prelude::*;

verus! {

/// Where the weights of block `j` start among the leaves of a model.
spec fn off(leaves: ModelLeaves, j: nat) -> nat {
    1 + blocks_items(leaves.parts().blocks, j).len()
}

/// The weights of block `j` lie at their places among the leaves.
spec fn placed(leaves: ModelLeaves, j: nat) -> bool {
    let w = leaves.blocks@[j as int];
    let n = w.heads@.len();
    &&& off(leaves, j + 1) == off(leaves, j) + 4 * n + 3
    &&& w.ffn_gate_w.id == off(leaves, j) + 4 * n
    &&& w.ffn_up_w.id == off(leaves, j) + 4 * n + 1
    &&& w.ffn_down_w.id == off(leaves, j) + 4 * n + 2
    &&& forall|i: int|
        0 <= i < n ==> {
            let h = #[trigger] w.heads@[i];
            &&& h.w_q.id == off(leaves, j) + 4 * i
            &&& h.w_k.id == off(leaves, j) + 4 * i + 1
            &&& h.w_v.id == off(leaves, j) + 4 * i + 2
            &&& h.w_o.id == off(leaves, j) + 4 * i + 3
        }
}

/// The leaves of a model lie one after the other.
proof fn lemma_placed(leaves: ModelLeaves, j: nat)
    requires
        consecutive(items(leaves.parts()), 0),
        j < leaves.blocks@.len(),
    ensures
        placed(leaves, j),
        off(leaves, j + 1) <= items(leaves.parts()).len(),
{
    let p = leaves.parts();
    let w = leaves.blocks@[j as int];
    let all = items(p);
    assert(p.blocks[j as int] == block_vars(w));
    lemma_heads_len(p.blocks[j as int].heads, w.heads@.len());
    lemma_ffn_place(p, j);
    assert(all[ffn_place(p, j, 0) as int].id == ffn_place(p, j, 0));
    assert(all[ffn_place(p, j, 1) as int].id == ffn_place(p, j, 1));
    assert(all[ffn_place(p, j, 2) as int].id == ffn_place(p, j, 2));
    assert forall|i: int| 0 <= i < w.heads@.len() implies {
        let h = #[trigger] w.heads@[i];
        &&& h.w_q.id == off(leaves, j) + 4 * i
        &&& h.w_k.id == off(leaves, j) + 4 * i + 1
        &&& h.w_v.id == off(leaves, j) + 4 * i + 2
        &&& h.w_o.id == off(leaves, j) + 4 * i + 3
    } by {
        lemma_head_place(p, j, i as nat);
        assert(all[head_place(p, j, i as nat, 0) as int].id == head_place(p, j, i as nat, 0));
        assert(all[head_place(p, j, i as nat, 1) as int].id == head_place(p, j, i as nat, 1));
        assert(all[head_place(p, j, i as nat, 2) as int].id == head_place(p, j, i as nat, 2));
        assert(all[head_place(p, j, i as nat, 3) as int].id == head_place(p, j, i as nat, 3));
    }
    lemma_blocks_prefix(p.blocks, j + 1, p.blocks.len());
}

/// The weights of an earlier block lie before those of a later one.
proof fn lemma_off_grows(leaves: ModelLeaves, j: nat, k: nat)
    requires
        j <= k,
    ensures
        off(leaves, j) <= off(leaves, k),
{
    lemma_blocks_prefix(leaves.parts().blocks, j, k);
}

/// The weights of a block are apart, and lie in the block's stretch of the leaves.
proof fn lemma_placed_apart(leaves: ModelLeaves, j: nat, b: int, x: NodeId, l: nat)
    requires
        j < leaves.blocks@.len(),
        placed(leaves, j),
        off(leaves, j + 1) <= l,
        l <= x < b,
    ensures
        block_apart(b, x, leaves.blocks@[j as int]),
        forall|q: int| #[trigger]
            in_block(q, leaves.blocks@[j as int]) ==> off(leaves, j) <= q < off(leaves, j + 1),
{
    let w = leaves.blocks@[j as int];
    let n = w.heads@.len();
    assert forall|i: int| 0 <= i < n implies #[trigger] head_apart(b, x, w.heads@[i]) by {}
    assert forall|i: int, k: int| 0 <= i < n && 0 <= k < n && i != k implies #[trigger] share_none(
        w.heads@[i],
        w.heads@[k],
    ) by {
        let (a, c) = (w.heads@[i], w.heads@[k]);
        assert forall|q: int| #[trigger] is_weight(q, a) implies !is_weight(q, c) by {}
    }
    assert forall|q: int| !#[trigger] no_weight(q, w.heads@, n) implies off(leaves, j) <= q
        < off(leaves, j) + 4 * n by {
        let i = choose|i: int| 0 <= i < n && #[trigger] is_weight(q, w.heads@[i]);
        assert(is_weight(q, w.heads@[i]));
    }
}

/// The node after the first `j` blocks of a forward pass over leaves that end at node `l`.
#[verifier::opaque]
spec fn base<T>(l: nat, leaves: ModelLeaves, ids: Seq<usize>, scale: T, j: nat) -> int {
    l as int + body_steps(l as int, leaves, ids, scale, j).len()
}

/// The nodes of the first `n` blocks of a forward pass.
spec fn body_made<T>(
    t: Seq<Entry<T>>,
    l: nat,
    leaves: ModelLeaves,
    ids: Seq<usize>,
    scale: T,
    n: nat,
) -> bool {
    forall|j: nat|
        j < n ==> #[trigger] block_at_made(t, l, leaves, ids, scale, j)
}

/// The nodes of block `j` of a forward pass.
spec fn block_at_made<T>(
    t: Seq<Entry<T>>,
    l: nat,
    leaves: ModelLeaves,
    ids: Seq<usize>,
    scale: T,
    j: nat,
) -> bool {
    let b = base(l, leaves, ids, scale, j);
    let w = leaves.blocks@[j as int];
    &&& l < b
    &&& block_made(t, b, (b - 1) as usize, w, scale)
    &&& base(l, leaves, ids, scale, j + 1) == b + 18 * w.heads@.len() + 14
}

/// The recorded steps of a forward pass are the nodes of its blocks.
proof fn lemma_body_made<T>(
    t: Seq<Entry<T>>,
    l: nat,
    leaves: ModelLeaves,
    ids: Seq<usize>,
    scale: T,
    n: nat,
)
    requires
        n <= leaves.blocks@.len(),
        forall|j: int| 0 <= j < n ==> (#[trigger] leaves.blocks@[j]).heads@.len() >= 1,
        made_by(t, l as int, body_steps(l as int, leaves, ids, scale, n)),
        t.len() <= usize::MAX,
    ensures
        body_made(t, l, leaves, ids, scale, n),
        t[l as int].step == Step::<T>::Embed(leaves.token_embed.id, ids),
        base(l, leaves, ids, scale, 0) == l + 1,
        l < base(l, leaves, ids, scale, n) <= t.len(),
    decreases n,
{
    reveal(base);
    let s0 = body_steps(l as int, leaves, ids, scale, 0);
    if n == 0 {
        assert(t[l as int + 0].step == s0[0]);
    } else {
        let p = (n - 1) as nat;
        let before = body_steps(l as int, leaves, ids, scale, p);
        let at = l as int + before.len();
        let w = leaves.blocks@[n - 1];
        let own = block_steps(at, (at - 1) as usize, w, scale);
        assert(body_steps(l as int, leaves, ids, scale, n) == before + own);
        lemma_made_split(t, l as int, before, own);
        lemma_body_made(t, l, leaves, ids, scale, p);
        lemma_block_made(t, at, (at - 1) as usize, w, scale);
        assert forall|j: nat| j < n implies #[trigger] block_at_made(
            t,
            l,
            leaves,
            ids,
            scale,
            j,
        ) by {
            if j == p {
                assert(base(l, leaves, ids, scale, n) == l + (before + own).len());
            }
        }
    }
}

/// The gradient of the activations after `j` of `n` blocks, for a gradient `g` of those
/// after all of them.
spec fn blocks_grad_at<T: Float>(
    t: Seq<Entry<T>>,
    l: nat,
    leaves: ModelLeaves,
    ids: Seq<usize>,
    scale: T,
    g: Array<T>,
    n: nat,
    j: nat,
) -> Array<T>
    decreases n - j,
{
    if j >= n {
        g
    } else {
        let b = base(l, leaves, ids, scale, j);
        block_total_at(
            t,
            b,
            (b - 1) as usize,
            leaves.blocks@[j as int],
            scale,
            blocks_grad_at(t, l, leaves, ids, scale, g, n, j + 1),
        )
    }
}

/// The gradients of the weights of a block were added.
#[verifier::opaque]
spec fn block_added<T: Float>(
    r: Seq<Array<T>>,
    gs: Seq<Array<T>>,
    t: Seq<Entry<T>>,
    b: int,
    x: NodeId,
    w: BlockWeights,
    scale: T,
    g: Array<T>,
) -> bool {
    let (gate, up, down) = (w.ffn_gate_w.id, w.ffn_up_w.id, w.ffn_down_w.id);
    let m = (b + 18 * w.heads@.len() + 1) as usize;
    let f = fed_grads_at(t, m, gate, up, down, g);
    let mid = block_mid_at(t, b, w, g);
    &&& r[gate as int] == add_of(gs[gate as int], f.grad_w_gate)
    &&& r[up as int] == add_of(gs[up as int], f.grad_w_up)
    &&& r[down as int] == add_of(gs[down as int], f.grad_w_down)
    &&& forall|i: int|
        0 <= i < w.heads@.len() ==> #[trigger] added_at(
            r,
            gs,
            t,
            w.heads@,
            scale,
            rmsnorm_of(t[x as int].value),
            mid,
            i,
        )
}

/// What was added stays added where the gradients of the weights stay.
proof fn lemma_added_stays<T: Float>(
    r: Seq<Array<T>>,
    gs: Seq<Array<T>>,
    r2: Seq<Array<T>>,
    gs2: Seq<Array<T>>,
    t: Seq<Entry<T>>,
    b: int,
    x: NodeId,
    leaves: ModelLeaves,
    j: nat,
    scale: T,
    g: Array<T>,
)
    requires
        j < leaves.blocks@.len(),
        placed(leaves, j),
        block_added(r, gs, t, b, x, leaves.blocks@[j as int], scale, g),
        forall|q: int|
            off(leaves, j) <= q < off(leaves, j + 1) ==> #[trigger] r2[q] == r[q],
        forall|q: int|
            off(leaves, j) <= q < off(leaves, j + 1) ==> #[trigger] gs2[q] == gs[q],
    ensures
        block_added(r2, gs2, t, b, x, leaves.blocks@[j as int], scale, g),
{
    reveal(block_added);
    let w = leaves.blocks@[j as int];
    let mid = block_mid_at(t, b, w, g);
    let v = rmsnorm_of(t[x as int].value);
    assert forall|i: int| 0 <= i < w.heads@.len() implies #[trigger] added_at(
        r2,
        gs2,
        t,
        w.heads@,
        scale,
        v,
        mid,
        i,
    ) by {
        assert(added_at(r, gs, t, w.heads@, scale, v, mid, i));
        let h = w.heads@[i];
        assert(r2[h.w_q.id as int] == r[h.w_q.id as int]);
        assert(r2[h.w_k.id as int] == r[h.w_k.id as int]);
        assert(r2[h.w_v.id as int] == r[h.w_v.id as int]);
        assert(r2[h.w_o.id as int] == r[h.w_o.id as int]);
        assert(gs2[h.w_q.id as int] == gs[h.w_q.id as int]);
        assert(gs2[h.w_k.id as int] == gs[h.w_k.id as int]);
        assert(gs2[h.w_v.id as int] == gs[h.w_v.id as int]);
        assert(gs2[h.w_o.id as int] == gs[h.w_o.id as int]);
    }
}

/// Block `i` of `n` has added the gradients of its weights.
spec fn block_at_added<T: Float>(
    r: Seq<Array<T>>,
    gs: Seq<Array<T>>,
    t: Seq<Entry<T>>,
    l: nat,
    leaves: ModelLeaves,
    ids: Seq<usize>,
    scale: T,
    g: Array<T>,
    n: nat,
    i: nat,
) -> bool {
    let b = base(l, leaves, ids, scale, i);
    block_added(
        r,
        gs,
        t,
        b,
        (b - 1) as usize,
        leaves.blocks@[i as int],
        scale,
        blocks_grad_at(t, l, leaves, ids, scale, g, n, i + 1),
    )
}

/// What the sweep over blocks `j` to `n` does.
spec fn blocks_swept<T: Float>(
    r: Seq<Array<T>>,
    gs: Seq<Array<T>>,
    t: Seq<Entry<T>>,
    l: nat,
    leaves: ModelLeaves,
    ids: Seq<usize>,
    scale: T,
    g: Array<T>,
    n: nat,
    j: nat,
) -> bool {
    &&& r[base(l, leaves, ids, scale, j) - 1] == blocks_grad_at(
        t,
        l,
        leaves,
        ids,
        scale,
        g,
        n,
        j,
    )
    &&& forall|i: nat|
        j <= i < n ==> #[trigger] block_at_added(r, gs, t, l, leaves, ids, scale, g, n, i)
    &&& forall|q: int|
        0 <= q < base(l, leaves, ids, scale, j) - 1 && !(off(leaves, j) <= q < l) ==> #[trigger] r[q]
            == gs[q]
}

/// The leaves and blocks of a forward pass over a tape.
spec fn pass_made<T: Float>(
    t: Seq<Entry<T>>,
    l: nat,
    leaves: ModelLeaves,
    ids: Seq<usize>,
    scale: T,
) -> bool {
    let n = leaves.blocks@.len();
    &&& consecutive(items(leaves.parts()), 0)
    &&& l == items(leaves.parts()).len()
    &&& forall|j: int| 0 <= j < n ==> (#[trigger] leaves.blocks@[j]).heads@.len() >= 1
    &&& body_made(t, l, leaves, ids, scale, n)
    &&& base(l, leaves, ids, scale, 0) == l + 1
    &&& t.len() <= usize::MAX
}

/// What a later block has added stays added.
proof fn lemma_later_added<T: Float>(
    t: Seq<Entry<T>>,
    gs: Seq<Array<T>>,
    r: Seq<Array<T>>,
    r2: Seq<Array<T>>,
    l: nat,
    leaves: ModelLeaves,
    ids: Seq<usize>,
    scale: T,
    g: Array<T>,
    j: nat,
    i: nat,
)
    requires
        consecutive(items(leaves.parts()), 0),
        l == items(leaves.parts()).len(),
        j < i < leaves.blocks@.len(),
        block_at_added(r, gs, t, l, leaves, ids, scale, g, leaves.blocks@.len(), i),
        forall|q: int| off(leaves, j + 1) <= q < l ==> #[trigger] r2[q] == r[q],
    ensures
        block_at_added(r2, gs, t, l, leaves, ids, scale, g, leaves.blocks@.len(), i),
{
    lemma_placed(leaves, i);
    lemma_off_grows(leaves, j + 1, i);
    let bi = base(l, leaves, ids, scale, i);
    lemma_added_stays(
        r,
        gs,
        r2,
        gs,
        t,
        bi,
        (bi - 1) as usize,
        leaves,
        i,
        scale,
        blocks_grad_at(t, l, leaves, ids, scale, g, leaves.blocks@.len(), i + 1),
    );
}

/// The sweep over block `j` of a forward pass, in terms of the block's stretch of the
/// leaves.
proof fn lemma_one_block<T: Float>(
    t: Seq<Entry<T>>,
    r: Seq<Array<T>>,
    b: int,
    leaves: ModelLeaves,
    j: nat,
    scale: T,
    l: nat,
)
    requires
        ready(t, r),
        l < b,
        j < leaves.blocks@.len(),
        leaves.blocks@[j as int].heads@.len() >= 1,
        placed(leaves, j),
        off(leaves, j + 1) <= l,
        t.len() <= usize::MAX,
        block_made(t, b, (b - 1) as usize, leaves.blocks@[j as int], scale),
        all_untouched(r, b - 1, b + 18 * leaves.blocks@[j as int].heads@.len() + 13),
    ensures
        ({
            let w = leaves.blocks@[j as int];
            let k = b + 18 * w.heads@.len() + 14;
            let x = (b - 1) as usize;
            let r2 = sweep(t, r, k, b);
            &&& k <= t.len()
            &&& ready(t, r2)
            &&& r2[b - 1] == block_total_at(t, b, x, w, scale, r[k - 1])
            &&& block_added(r2, r, t, b, x, w, scale, r[k - 1])
            &&& forall|q: int|
                0 <= q < b - 1 && !(off(leaves, j) <= q < off(leaves, j + 1)) ==> #[trigger] r2[q]
                    == r[q]
        }),
{
    let w = leaves.blocks@[j as int];
    let k = b + 18 * w.heads@.len() + 14;
    assert(b <= t.len()) by {
        reveal(block_made);
    }
    let x = (b - 1) as usize;
    lemma_placed_apart(leaves, j, b, x, l);
    assert forall|q: int| b <= q < k - 1 implies #[trigger] untouched(r, q) by {}
    lemma_block_sweep(t, r, b, x, w, scale);
    let r2 = sweep(t, r, k, b);
    reveal(block_total_at);
    assert(untouched(r, b - 1));
    lemma_fresh_sum(t, r, b - 1, block_total_at(t, b, x, w, scale, r[k - 1]));
    assert(block_added(r2, r, t, b, x, w, scale, r[k - 1])) by {
        reveal(block_added);
    }
    assert forall|q: int|
        0 <= q < b - 1 && !(off(leaves, j) <= q < off(leaves, j + 1)) implies #[trigger] r2[q]
        == r[q] by {
        assert(!in_block(q, w));
    }
}

/// The sweep over block `j` after the blocks that follow it.
proof fn lemma_blocks_step<T: Float>(
    t: Seq<Entry<T>>,
    gs: Seq<Array<T>>,
    r: Seq<Array<T>>,
    l: nat,
    leaves: ModelLeaves,
    ids: Seq<usize>,
    scale: T,
    g: Array<T>,
    j: nat,
)
    requires
        ready(t, r),
        pass_made(t, l, leaves, ids, scale),
        j < leaves.blocks@.len(),
        all_untouched(gs, l as int, base(l, leaves, ids, scale, j + 1) - 1),
        blocks_swept(r, gs, t, l, leaves, ids, scale, g, leaves.blocks@.len(), j + 1),
    ensures
        ({
            let r2 = sweep(
                t,
                r,
                base(l, leaves, ids, scale, j + 1),
                base(l, leaves, ids, scale, j),
            );
            &&& ready(t, r2)
            &&& base(l, leaves, ids, scale, j) <= base(l, leaves, ids, scale, j + 1)
            &&& blocks_swept(r2, gs, t, l, leaves, ids, scale, g, leaves.blocks@.len(), j)
        }),
{
    let n = leaves.blocks@.len();
    let w = leaves.blocks@[j as int];
    let b = base(l, leaves, ids, scale, j);
    let x = (b - 1) as usize;
    let k = base(l, leaves, ids, scale, j + 1);
    assert(block_at_made(t, l, leaves, ids, scale, j));
    lemma_placed(leaves, j);
    lemma_off_grows(leaves, j, j + 1);
    let gj = blocks_grad_at(t, l, leaves, ids, scale, g, n, j + 1);
    assert forall|q: int| b - 1 <= q < k - 1 implies #[trigger] untouched(r, q) by {
        assert(untouched(gs, q));
        assert(r[q] == gs[q]);
    }
    lemma_one_block(t, r, b, leaves, j, scale, l);
    let r2 = sweep(t, r, k, b);
    assert forall|q: int| off(leaves, j) <= q < off(leaves, j + 1) implies #[trigger] r[q]
        == gs[q] by {}
    lemma_added_stays(r2, r, r2, gs, t, b, x, leaves, j, scale, gj);
    assert(block_at_added(r2, gs, t, l, leaves, ids, scale, g, n, j));
    assert forall|i: nat| j <= i < n implies #[trigger] block_at_added(
        r2,
        gs,
        t,
        l,
        leaves,
        ids,
        scale,
        g,
        n,
        i,
    ) by {
        if i > j {
            assert(block_at_added(r, gs, t, l, leaves, ids, scale, g, n, i));
            lemma_later_added(t, gs, r, r2, l, leaves, ids, scale, g, j, i);
        }
    }
    assert forall|q: int| 0 <= q < b - 1 && !(off(leaves, j) <= q < l) implies #[trigger] r2[q]
        == gs[q] by {
        assert(r2[q] == r[q]);
        assert(r[q] == gs[q]);
    }
}

/// The sweep over all blocks from block `j` on.
proof fn lemma_blocks_sweep<T: Float>(
    t: Seq<Entry<T>>,
    gs: Seq<Array<T>>,
    l: nat,
    leaves: ModelLeaves,
    ids: Seq<usize>,
    scale: T,
    j: nat,
)
    requires
        ready(t, gs),
        pass_made(t, l, leaves, ids, scale),
        j <= leaves.blocks@.len(),
        all_untouched(gs, l as int, base(l, leaves, ids, scale, leaves.blocks@.len()) - 1),
    ensures
        ({
            let n = leaves.blocks@.len();
            let (hi, lo) = (base(l, leaves, ids, scale, n), base(l, leaves, ids, scale, j));
            &&& l < lo <= hi
            &&& ready(t, sweep(t, gs, hi, lo))
            &&& blocks_swept(
                sweep(t, gs, hi, lo),
                gs,
                t,
                l,
                leaves,
                ids,
                scale,
                gs[hi - 1],
                n,
                j,
            )
        }),
    decreases leaves.blocks@.len() - j,
{
    let n = leaves.blocks@.len();
    let (hi, lo) = (base(l, leaves, ids, scale, n), base(l, leaves, ids, scale, j));
    lemma_base_above(t, l, leaves, ids, scale, j);
    if j == n {
        lemma_sweep_none(t, gs, hi);
    } else {
        lemma_blocks_sweep(t, gs, l, leaves, ids, scale, j + 1);
        let mid = base(l, leaves, ids, scale, j + 1);
        let r = sweep(t, gs, hi, mid);
        assert forall|q: int| l <= q < mid - 1 implies #[trigger] untouched(gs, q) by {}
        lemma_blocks_step(t, gs, r, l, leaves, ids, scale, gs[hi - 1], j);
        lemma_sweep_split(t, gs, hi, mid, lo);
    }
}

/// A sweep over no node.
proof fn lemma_sweep_none<T: Float>(t: Seq<Entry<T>>, gs: Seq<Array<T>>, k: int)
    ensures
        sweep(t, gs, k, k) == gs,
{
    reveal(sweep);
}

/// The blocks lie after the leaves.
proof fn lemma_base_above<T: Float>(
    t: Seq<Entry<T>>,
    l: nat,
    leaves: ModelLeaves,
    ids: Seq<usize>,
    scale: T,
    j: nat,
)
    requires
        pass_made(t, l, leaves, ids, scale),
        j <= leaves.blocks@.len(),
    ensures
        l < base(l, leaves, ids, scale, j),
{
    if j < leaves.blocks@.len() {
        assert(block_at_made(t, l, leaves, ids, scale, j));
    } else if j > 0 {
        assert(block_at_made(t, l, leaves, ids, scale, (j - 1) as nat));
    }
}

/// What a quantiser of weights passes back: its gradient, straight through.
proof fn lemma_weights_pass<T: Float>(t: Seq<Entry<T>>, gs: Seq<Array<T>>, k: int, a: NodeId)
    requires
        ready(t, gs),
        0 <= k < t.len(),
        t[k].step == Step::<T>::QuantiseWeights(a),
        untouched(gs, a as int),
    ensures
        ready(t, sweep(t, gs, k + 1, k)),
        sweep(t, gs, k + 1, k)[a as int] == gs[k],
        only_at(sweep(t, gs, k + 1, k), gs, k, a as int),
{
    reveal(ready);
    assert(entry_ok(t, k));
    lemma_pass_to_fresh(t, gs, k, a);
}

/// What the loss passes back to the logits.
proof fn lemma_loss_pass<T: Float>(
    t: Seq<Entry<T>>,
    gs: Seq<Array<T>>,
    k: int,
    a: NodeId,
    targets: Seq<usize>,
)
    requires
        ready(t, gs),
        0 <= k < t.len(),
        t[k].step == Step::<T>::CrossEntropy(a, targets),
        untouched(gs, a as int),
    ensures
        ready(t, sweep(t, gs, k + 1, k)),
        sweep(t, gs, k + 1, k)[a as int] == cross_entropy_grad_of(
            gs[k],
            softmax_of(t[a as int].value),
            targets,
        ),
        only_at(sweep(t, gs, k + 1, k), gs, k, a as int),
{
    reveal(ready);
    assert(entry_ok(t, k));
    lemma_pass_to_fresh(t, gs, k, a);
}

/// What a lookup of rows adds to the gradient of its matrix.
proof fn lemma_embed_add<T: Float>(
    t: Seq<Entry<T>>,
    gs: Seq<Array<T>>,
    k: int,
    a: NodeId,
    ids: Seq<usize>,
)
    requires
        ready(t, gs),
        0 <= k < t.len(),
        t[k].step == Step::<T>::Embed(a, ids),
    ensures
        ready(t, sweep(t, gs, k + 1, k)),
        fit(embed_grad_of(gs[k], t[a as int].value, ids), t[a as int].value.dims),
        t[k].value == embed_of(t[a as int].value, ids),
        sweep(t, gs, k + 1, k)[a as int] == add_of(
            gs[a as int],
            embed_grad_of(gs[k], t[a as int].value, ids),
        ),
        only_at(sweep(t, gs, k + 1, k), gs, k, a as int),
{
    reveal(ready);
    assert(entry_ok(t, k));
    lemma_sweep_one(t, gs, k);
    lemma_shares_fit(t, k, gs[k]);
    let c = contributions(t, k, gs[k]);
    assert(c[0] == (a, embed_grad_of(gs[k], t[a as int].value, ids)));
}

/// The nodes from the last block to the loss.
spec fn tail_made<T>(t: Seq<Entry<T>>, b: int, embed: NodeId, targets: Seq<usize>) -> bool {
    &&& 0 < b
    &&& b + 6 == t.len()
    &&& t.len() <= usize::MAX
    &&& embed < b - 1
    &&& t[b].step == Step::<T>::RmsNorm((b - 1) as usize)
    &&& t[b + 1].step == Step::<T>::QuantiseActs(b as usize)
    &&& t[b + 2].step == Step::<T>::Transpose(embed)
    &&& t[b + 3].step == Step::<T>::QuantiseWeights((b + 2) as usize)
    &&& t[b + 4].step == Step::<T>::MatMul((b + 1) as usize, (b + 3) as usize)
    &&& t[b + 5].step == Step::<T>::CrossEntropy((b + 4) as usize, targets)
}

/// The gradient of logits under a gradient of the loss.
pub open spec fn logits_grad<T: Float>(g: Array<T>, logits: Array<T>, targets: Seq<usize>) -> Array<
    T,
> {
    cross_entropy_grad_of(g, softmax_of(logits), targets)
}

/// What the tied projection passes back to the embedding.
spec fn tail_embed<T: Float>(y: Array<T>, g: Array<T>) -> Array<T> {
    transpose_of(to_weights(restored_acts(y), g))
}

/// What the tied projection passes back to the activations after the last block.
spec fn tail_grad<T: Float>(x: Array<T>, embed: Array<T>, g: Array<T>) -> Array<T> {
    rmsnorm_grad_of(to_input(g, transpose_of(embed)), x)
}

/// The values on the nodes after the last block.
proof fn lemma_tail_values<T: Float>(
    t: Seq<Entry<T>>,
    gs: Seq<Array<T>>,
    b: int,
    embed: NodeId,
    targets: Seq<usize>,
)
    requires
        ready(t, gs),
        tail_made(t, b, embed, targets),
    ensures
        t[b].value == rmsnorm_of(t[b - 1].value),
        t[b + 1].value == restored_acts(t[b].value),
        t[b + 2].value == transpose_of(t[embed as int].value),
        t[b + 3].value == ternary_weights(t[b + 2].value),
{
    reveal(ready);
    assert(entry_ok(t, b));
    assert(entry_ok(t, b + 1));
    assert(entry_ok(t, b + 2));
    assert(entry_ok(t, b + 3));
}

/// The sweep from the loss down to the last block.
proof fn lemma_tail_sweep<T: Float>(
    t: Seq<Entry<T>>,
    gs: Seq<Array<T>>,
    b: int,
    embed: NodeId,
    targets: Seq<usize>,
)
    requires
        ready(t, gs),
        tail_made(t, b, embed, targets),
        all_untouched(gs, b - 1, b + 5),
        untouched(gs, embed as int),
    ensures
        ({
            let r = sweep(t, gs, b + 6, b);
            let g = logits_grad(gs[b + 5], t[b + 4].value, targets);
            let x = t[b - 1].value;
            &&& ready(t, r)
            &&& r[b - 1] == tail_grad(x, t[embed as int].value, g)
            &&& r[embed as int] == tail_embed(rmsnorm_of(x), g)
            &&& only_at_two(r, gs, b, b - 1, embed as int)
        }),
{
    assert(untouched(gs, b - 1) && untouched(gs, b) && untouched(gs, b + 1));
    assert(untouched(gs, b + 2) && untouched(gs, b + 3) && untouched(gs, b + 4));
    lemma_tail_values(t, gs, b, embed, targets);
    lemma_loss_pass(t, gs, b + 5, (b + 4) as usize, targets);
    let g1 = sweep(t, gs, b + 6, b + 5);
    assert(g1[b + 1] == gs[b + 1] && g1[b + 3] == gs[b + 3] && g1[b + 2] == gs[b + 2]);
    lemma_matmul_pass(t, g1, b + 4, (b + 1) as usize, (b + 3) as usize);
    let g2 = sweep(t, g1, b + 5, b + 4);
    assert(g2[b + 2] == g1[b + 2]);
    lemma_weights_pass(t, g2, b + 3, (b + 2) as usize);
    let g3 = sweep(t, g2, b + 4, b + 3);
    assert(g3[embed as int] == g2[embed as int] && g2[embed as int] == g1[embed as int]
        && g1[embed as int] == gs[embed as int]);
    lemma_transpose_pass(t, g3, b + 2, embed);
    let g4 = sweep(t, g3, b + 3, b + 2);
    assert(g4[b] == g3[b] && g3[b] == g2[b] && g2[b] == g1[b] && g1[b] == gs[b]);
    assert(g4[b + 1] == g3[b + 1] && g3[b + 1] == g2[b + 1]);
    lemma_acts_pass(t, g4, b + 1, b as usize);
    let g5 = sweep(t, g4, b + 2, b + 1);
    lemma_rmsnorm_add(t, g5, b, (b - 1) as usize);
    let g6 = sweep(t, g5, b + 1, b);
    assert(g5[b - 1] == g4[b - 1] && g4[b - 1] == g3[b - 1] && g3[b - 1] == g2[b - 1]
        && g2[b - 1] == g1[b - 1] && g1[b - 1] == gs[b - 1]);
    lemma_fresh_sum(t, g5, b - 1, rmsnorm_grad_of(g5[b], t[b - 1].value));
    lemma_sweep_split(t, gs, b + 6, b + 5, b);
    lemma_sweep_split(t, g1, b + 5, b + 4, b);
    lemma_sweep_split(t, g2, b + 4, b + 3, b);
    lemma_sweep_split(t, g3, b + 3, b + 2, b);
    lemma_sweep_split(t, g4, b + 2, b + 1, b);
    assert(g6[embed as int] == g5[embed as int] && g5[embed as int] == g4[embed as int]);
    assert forall|j: int| 0 <= j < b && j != b - 1 && j != embed implies #[trigger] g6[j]
        == gs[j] by {
        assert(g5[j] == g4[j]);
        assert(g4[j] == g3[j]);
        assert(g3[j] == g2[j]);
        assert(g2[j] == g1[j]);
        assert(g1[j] == gs[j]);
    }
}

/// Leaves pass nothing back.
pub proof fn lemma_back_leaves<T: Float>(t: Seq<Entry<T>>, gs: Seq<Array<T>>, k: nat)
    requires
        forall|j: int| 0 <= j < k ==> (#[trigger] t[j]).step == Step::<T>::Leaf,
    ensures
        back(t, gs, k) == gs,
    decreases k,
{
    if k > 0 {
        assert(t[k - 1].step == Step::<T>::Leaf);
        lemma_back_leaves(t, gs, (k - 1) as nat);
    }
}

/// Block `j` of a device holds the weights that a tape holds for it.
spec fn same_block_values<T: Float>(
    t: Seq<Entry<T>>,
    leaves: ModelLeaves,
    bs: Seq<DeviceBlock<Tensor<T>>>,
    j: int,
) -> bool {
    &&& heads_weights(t, leaves.blocks@[j].heads@) == heads_val(bs[j].heads@)
    &&& block_ffn_weights(t, leaves.blocks@[j]) == ffn_val(bs[j].ffn)
}

/// The blocks of a device hold the weights that a tape holds.
spec fn same_values<T: Float>(
    t: Seq<Entry<T>>,
    leaves: ModelLeaves,
    bs: Seq<DeviceBlock<Tensor<T>>>,
) -> bool {
    &&& bs.len() == leaves.blocks@.len()
    &&& forall|j: int| 0 <= j < bs.len() ==> #[trigger] same_block_values(t, leaves, bs, j)
}

/// The activations after `j` blocks on a tape are those on a device.
proof fn lemma_inputs_match<T: Float>(
    t: Seq<Entry<T>>,
    gs: Seq<Array<T>>,
    l: nat,
    leaves: ModelLeaves,
    ids: Seq<usize>,
    scale: T,
    bs: Seq<DeviceBlock<Tensor<T>>>,
    j: nat,
)
    requires
        ready(t, gs),
        pass_made(t, l, leaves, ids, scale),
        same_values(t, leaves, bs),
        j <= bs.len(),
    ensures
        t[base(l, leaves, ids, scale, j) - 1].value == blocks_out_bit_of::<Tensor<T>>(
            t[l as int].value,
            bs,
            scale,
            j,
        ),
    decreases j,
{
    if j > 0 {
        let p = (j - 1) as nat;
        lemma_inputs_match(t, gs, l, leaves, ids, scale, bs, p);
        assert(block_at_made(t, l, leaves, ids, scale, p));
        assert(same_block_values(t, leaves, bs, p as int));
        let b = base(l, leaves, ids, scale, p);
        lemma_block_bounds(t, b, (b - 1) as usize, leaves.blocks@[p as int], scale);
        lemma_block_values(t, gs, b, (b - 1) as usize, leaves.blocks@[p as int], scale);
    }
}

/// The nodes of a block lie on the tape.
proof fn lemma_block_bounds<T>(t: Seq<Entry<T>>, b: int, x: NodeId, w: BlockWeights, scale: T)
    requires
        block_made(t, b, x, w, scale),
    ensures
        0 <= b,
        b + 18 * w.heads@.len() + 14 <= t.len() <= usize::MAX,
{
    reveal(block_made);
}

/// What a window saved and gave back on a device, over the weights of a tape.
#[verifier::opaque]
spec fn device_pass<T: Float>(
    t: Seq<Entry<T>>,
    l: nat,
    leaves: ModelLeaves,
    ids: Seq<usize>,
    scale: T,
    bs: Seq<DeviceBlock<Tensor<T>>>,
    sv: WindowSaved<Tensor<T>>,
    d: WindowGrads<Tensor<T>>,
    g: Array<T>,
) -> bool {
    &&& pass_made(t, l, leaves, ids, scale)
    &&& same_values(t, leaves, bs)
    &&& sv.block_inputs@.len() == bs.len() + 1
    &&& d.blocks@.len() == bs.len()
    &&& window_saved_bit_ok(
        sv,
        t[l as int].value,
        bs,
        t[leaves.token_embed.id as int].value,
        scale,
    )
    &&& window_grads_bit_ok(d, g, sv, bs, scale)
}

/// The gradients of block `j` of a device are those of the tape.
proof fn lemma_block_step_match<T: Float>(
    t: Seq<Entry<T>>,
    gs: Seq<Array<T>>,
    l: nat,
    leaves: ModelLeaves,
    ids: Seq<usize>,
    scale: T,
    bs: Seq<DeviceBlock<Tensor<T>>>,
    sv: WindowSaved<Tensor<T>>,
    d: WindowGrads<Tensor<T>>,
    g: Array<T>,
    last: Array<T>,
    j: nat,
)
    requires
        ready(t, gs),
        device_pass(t, l, leaves, ids, scale, bs, sv, d, g),
        last == final_grad_bit_of::<Tensor<T>>(g, sv),
        j < bs.len(),
        j + 1 < bs.len() ==> d.blocks@[j as int + 1].grad_x@ == blocks_grad_at(
            t,
            l,
            leaves,
            ids,
            scale,
            last,
            bs.len(),
            j + 1,
        ),
    ensures
        ({
            let b = base(l, leaves, ids, scale, j);
            let x = (b - 1) as usize;
            let w = leaves.blocks@[j as int];
            let gj = blocks_grad_at(t, l, leaves, ids, scale, last, bs.len(), j + 1);
            &&& block_made(t, b, x, w, scale)
            &&& w.heads@.len() >= 1
            &&& l < b
            &&& block_saved_bit_ok(
                sv.block_saveds@[j as int],
                t[x as int].value,
                heads_weights(t, w.heads@),
                block_ffn_weights(t, w),
                scale,
            )
            &&& block_grads_bit_ok(
                d.blocks@[j as int],
                gj,
                t[x as int].value,
                sv.block_saveds@[j as int],
                heads_weights(t, w.heads@),
                block_ffn_weights(t, w),
                scale,
                w.heads@.len(),
            )
        }),
{
    reveal(device_pass);
    let n = bs.len();
    assert(block_at_made(t, l, leaves, ids, scale, j));
    assert(same_block_values(t, leaves, bs, j as int));
    let b = base(l, leaves, ids, scale, j);
    let w = leaves.blocks@[j as int];
    assert(w.heads@.len() >= 1);
    lemma_block_bounds(t, b, (b - 1) as usize, w, scale);
    lemma_inputs_match(t, gs, l, leaves, ids, scale, bs, j);
    assert(sv.block_inputs@[j as int].val() == blocks_out_bit_of::<Tensor<T>>(
        t[l as int].value,
        bs,
        scale,
        j,
    ));
    assert(block_step_bit_ok(
        d.blocks@[j as int],
        if j == bs.len() - 1 {
            last
        } else {
            d.blocks@[j as int + 1].grad_x.val()
        },
        sv,
        bs,
        scale,
        j as int,
    ));
    assert(heads_weights(t, w.heads@).len() == heads_val(bs[j as int].heads@).len());
    assert(block_saved_bit_ok(
        sv.block_saveds@[j as int],
        blocks_out_bit_of::<Tensor<T>>(t[l as int].value, bs, scale, j),
        heads_val(bs[j as int].heads@),
        ffn_val(bs[j as int].ffn),
        scale,
    ));
}

/// What block `j` of a device passes back is what the tape has for its input.
proof fn lemma_chain_match<T: Float>(
    t: Seq<Entry<T>>,
    gs: Seq<Array<T>>,
    l: nat,
    leaves: ModelLeaves,
    ids: Seq<usize>,
    scale: T,
    bs: Seq<DeviceBlock<Tensor<T>>>,
    sv: WindowSaved<Tensor<T>>,
    d: WindowGrads<Tensor<T>>,
    g: Array<T>,
    last: Array<T>,
    j: nat,
)
    requires
        ready(t, gs),
        device_pass(t, l, leaves, ids, scale, bs, sv, d, g),
        last == final_grad_bit_of::<Tensor<T>>(g, sv),
        j < bs.len(),
    ensures
        d.blocks@[j as int].grad_x@ == blocks_grad_at(
            t,
            l,
            leaves,
            ids,
            scale,
            last,
            bs.len(),
            j,
        ),
    decreases bs.len() - j,
{
    if j + 1 < bs.len() {
        lemma_chain_match(t, gs, l, leaves, ids, scale, bs, sv, d, g, last, j + 1);
    }
    lemma_block_step_match(t, gs, l, leaves, ids, scale, bs, sv, d, g, last, j);
    let b = base(l, leaves, ids, scale, j);
    lemma_block_match(
        t,
        gs,
        b,
        (b - 1) as usize,
        leaves.blocks@[j as int],
        scale,
        blocks_grad_at(t, l, leaves, ids, scale, last, bs.len(), j + 1),
        sv.block_saveds@[j as int],
        d.blocks@[j as int],
    );
}

/// The gradients of a block, arranged like its weights.
pub open spec fn block_grads_of<T>(d: BlockGrads<Tensor<T>>) -> BlockOf<Array<T>> {
    BlockOf {
        heads: Seq::new(
            d.head_grads@.len(),
            |i: int|
                HeadOf {
                    w_q: d.head_grads@[i].grad_w_q@,
                    w_k: d.head_grads@[i].grad_w_k@,
                    w_v: d.head_grads@[i].grad_w_v@,
                    w_o: d.head_grads@[i].grad_w_o@,
                },
        ),
        gate: d.grad_w_gate@,
        up: d.grad_w_up@,
        down: d.grad_w_down@,
    }
}

/// The gradients that a window gives on a device, arranged like the weights of its model.
pub open spec fn window_grads_of<T: Float>(d: WindowGrads<Tensor<T>>, ids: Seq<usize>) -> ModelOf<
    Array<T>,
> {
    ModelOf {
        embed: tied_grad_of(d.grad_x@, d.grad_embed@, ids),
        blocks: Seq::new(d.blocks@.len(), |j: int| block_grads_of(d.blocks@[j])),
    }
}

/// The weights of a device's block are those of a model's block.
pub open spec fn holds_block<T>(b: DeviceBlock<Tensor<T>>, w: BlockMasters<T>) -> bool {
    &&& b.heads@.len() == w.heads@.len()
    &&& forall|i: int|
        0 <= i < w.heads@.len() ==> {
            &&& (#[trigger] b.heads@[i]).w_q@ == w.heads@[i].w_q@
            &&& b.heads@[i].w_k@ == w.heads@[i].w_k@
            &&& b.heads@[i].w_v@ == w.heads@[i].w_v@
            &&& b.heads@[i].w_o@ == w.heads@[i].w_o@
        }
    &&& b.ffn.w_gate@ == w.ffn_gate_w@
    &&& b.ffn.w_up@ == w.ffn_up_w@
    &&& b.ffn.w_down@ == w.ffn_down_w@
}

/// The blocks of a device hold the weights of a model.
pub open spec fn holds_model<T>(bs: Seq<DeviceBlock<Tensor<T>>>, m: Model<T>) -> bool {
    &&& bs.len() == m.blocks@.len()
    &&& forall|j: int| 0 <= j < bs.len() ==> holds_block(#[trigger] bs[j], m.blocks@[j])
}

/// A weight whose gradient was untouched has what was added.
proof fn lemma_fresh_weight<T: Float>(
    t: Seq<Entry<T>>,
    r: Seq<Array<T>>,
    gs: Seq<Array<T>>,
    i: NodeId,
    a: Tensor<T>,
    w: Array<T>,
)
    requires
        ready(t, gs),
        i < t.len(),
        untouched(gs, i as int),
        r[i as int] == add_of(gs[i as int], a@),
        a.wf(),
        a.shape@ == w.dims,
        t[i as int].value == w,
    ensures
        r[i as int] == a@,
{
    lemma_fresh_sum(t, gs, i as int, a@);
}

/// After the sweep over the blocks, the gradients of the weights of block `j` are those
/// that the device gives.
#[verifier::rlimit(60)]
proof fn lemma_block_final<T: Float>(
    t: Seq<Entry<T>>,
    gs: Seq<Array<T>>,
    r: Seq<Array<T>>,
    l: nat,
    leaves: ModelLeaves,
    ids: Seq<usize>,
    scale: T,
    bs: Seq<DeviceBlock<Tensor<T>>>,
    sv: WindowSaved<Tensor<T>>,
    d: WindowGrads<Tensor<T>>,
    g: Array<T>,
    last: Array<T>,
    shape: Seq<usize>,
    j: nat,
)
    requires
        ready(t, gs),
        device_pass(t, l, leaves, ids, scale, bs, sv, d, g),
        last == final_grad_bit_of::<Tensor<T>>(g, sv),
        j < bs.len(),
        l <= t.len(),
        block_grads_fit(
            d.blocks@[j as int],
            bs[j as int].heads@,
            bs[j as int].ffn,
            shape,
            bs[j as int].heads@.len(),
        ),
        all_untouched(gs, 1, l as int),
        block_at_added(r, gs, t, l, leaves, ids, scale, last, bs.len(), j),
    ensures
        ({
            let w = leaves.blocks@[j as int];
            let p = block_grads_of(d.blocks@[j as int]);
            &&& p.heads.len() == w.heads@.len()
            &&& r[w.ffn_gate_w.id as int] == p.gate
            &&& r[w.ffn_up_w.id as int] == p.up
            &&& r[w.ffn_down_w.id as int] == p.down
            &&& forall|i: int|
                0 <= i < w.heads@.len() ==> {
                    let h = #[trigger] w.heads@[i];
                    &&& r[h.w_q.id as int] == p.heads[i].w_q
                    &&& r[h.w_k.id as int] == p.heads[i].w_k
                    &&& r[h.w_v.id as int] == p.heads[i].w_v
                    &&& r[h.w_o.id as int] == p.heads[i].w_o
                }
        }),
{
    reveal(device_pass);
    let w = leaves.blocks@[j as int];
    let b = base(l, leaves, ids, scale, j);
    let x = (b - 1) as usize;
    let gj = blocks_grad_at(t, l, leaves, ids, scale, last, bs.len(), j + 1);
    let dj = d.blocks@[j as int];
    if j + 1 < bs.len() {
        lemma_chain_match(t, gs, l, leaves, ids, scale, bs, sv, d, g, last, j + 1);
    }
    lemma_block_step_match(t, gs, l, leaves, ids, scale, bs, sv, d, g, last, j);
    lemma_block_match(t, gs, b, x, w, scale, gj, sv.block_saveds@[j as int], dj);
    lemma_placed(leaves, j);
    assert(same_block_values(t, leaves, bs, j as int));
    let ws = heads_weights(t, w.heads@);
    assert(ws.len() == heads_val(bs[j as int].heads@).len());
    reveal(block_added);
    let f = bs[j as int].ffn;
    assert(block_ffn_weights(t, w) == ffn_val(f));
    assert(untouched(gs, w.ffn_gate_w.id as int));
    assert(untouched(gs, w.ffn_up_w.id as int));
    assert(untouched(gs, w.ffn_down_w.id as int));
    lemma_fresh_weight(t, r, gs, w.ffn_gate_w.id, dj.grad_w_gate, f.w_gate@);
    lemma_fresh_weight(t, r, gs, w.ffn_up_w.id, dj.grad_w_up, f.w_up@);
    lemma_fresh_weight(t, r, gs, w.ffn_down_w.id, dj.grad_w_down, f.w_down@);
    let mid = block_mid_at(t, b, w, gj);
    let v = rmsnorm_of(t[x as int].value);
    assert forall|i: int| 0 <= i < w.heads@.len() implies {
        let h = #[trigger] w.heads@[i];
        let p = block_grads_of(dj);
        &&& r[h.w_q.id as int] == p.heads[i].w_q
        &&& r[h.w_k.id as int] == p.heads[i].w_k
        &&& r[h.w_v.id as int] == p.heads[i].w_v
        &&& r[h.w_o.id as int] == p.heads[i].w_o
    } by {
        let h = w.heads@[i];
        let hg = dj.head_grads@[i];
        let hw = bs[j as int].heads@[i];
        assert(added_at(r, gs, t, w.heads@, scale, v, mid, i));
        assert(same_weights(head_grads_at(t, v, h, scale, mid), hg));
        assert(weight_grads_fit(hg, hw));
        assert(ws[i] == head_weights(t, h));
        assert(heads_val(bs[j as int].heads@)[i] == head_val(hw));
        assert(untouched(gs, h.w_q.id as int) && untouched(gs, h.w_k.id as int));
        assert(untouched(gs, h.w_v.id as int) && untouched(gs, h.w_o.id as int));
        lemma_fresh_weight(t, r, gs, h.w_q.id, hg.grad_w_q, hw.w_q@);
        lemma_fresh_weight(t, r, gs, h.w_k.id, hg.grad_w_k, hw.w_k@);
        lemma_fresh_weight(t, r, gs, h.w_v.id, hg.grad_w_v, hw.w_v@);
        lemma_fresh_weight(t, r, gs, h.w_o.id, hg.grad_w_o, hw.w_o@);
    }
}

/// The tape of a scored window: leaves, blocks, the tied projection and the loss.
#[verifier::opaque]
spec fn window_made<T: Float>(
    t: Seq<Entry<T>>,
    gs: Seq<Array<T>>,
    l: nat,
    leaves: ModelLeaves,
    ids: Seq<usize>,
    targets: Seq<usize>,
    scale: T,
) -> bool {
    &&& ready(t, gs)
    &&& pass_made(t, l, leaves, ids, scale)
    &&& l < t.len()
    &&& leaves.token_embed.id == 0
    &&& forall|j: int| 0 <= j < l ==> (#[trigger] t[j]).step == Step::<T>::Leaf
    &&& t[l as int].step == Step::<T>::Embed(0, ids)
    &&& tail_made(t, base(l, leaves, ids, scale, leaves.blocks@.len()), 0, targets)
    &&& all_untouched(gs, 0, t.len() - 1)
}

/// The gradients at the leaves after the backward pass of a window.
proof fn lemma_window_back<T: Float>(
    t: Seq<Entry<T>>,
    gs: Seq<Array<T>>,
    l: nat,
    leaves: ModelLeaves,
    ids: Seq<usize>,
    targets: Seq<usize>,
    scale: T,
)
    requires
        window_made(t, gs, l, leaves, ids, targets, scale),
    ensures
        ({
            let n = leaves.blocks@.len();
            let r = back(t, gs, t.len());
            let x = t[base(l, leaves, ids, scale, n) - 1].value;
            let g = logits_grad(gs[t.len() - 1], t[t.len() - 2].value, targets);
            let last = tail_grad(x, t[0].value, g);
            let first = blocks_grad_at(t, l, leaves, ids, scale, last, n, 0);
            let z = tail_embed(rmsnorm_of(x), g);
            &&& t[l as int].value == embed_of(t[0].value, ids)
            &&& r[0] == add_of(z, embed_grad_of(first, t[0].value, ids))
            &&& fit(embed_grad_of(first, t[0].value, ids), t[0].value.dims)
            &&& forall|i: nat|
                i < n ==> #[trigger] block_at_added(
                    r,
                    gs,
                    t,
                    l,
                    leaves,
                    ids,
                    scale,
                    last,
                    n,
                    i,
                )
        }),
{
    reveal(window_made);
    let n = leaves.blocks@.len();
    let b = base(l, leaves, ids, scale, n);
    lemma_base_above(t, l, leaves, ids, scale, n);
    assert(untouched(gs, 0));
    assert forall|q: int| b - 1 <= q < b + 5 implies #[trigger] untouched(gs, q) by {}
    lemma_tail_sweep(t, gs, b, 0, targets);
    let g1 = sweep(t, gs, b + 6, b);
    assert forall|q: int| l <= q < b - 1 implies #[trigger] untouched(g1, q) by {
        assert(untouched(gs, q));
        assert(g1[q] == gs[q]);
    }
    lemma_blocks_sweep(t, g1, l, leaves, ids, scale, 0);
    let g2 = sweep(t, g1, b, l as int + 1);
    let last = g1[b - 1];
    assert(off(leaves, 0) == 1) by {
        assert(blocks_items(leaves.parts().blocks, 0).len() == 0);
    }
    lemma_embed_add(t, g2, l as int, 0, ids);
    let g3 = sweep(t, g2, l as int + 1, l as int);
    assert(g2[0] == g1[0]);
    lemma_back_sweep(t, gs, t.len(), b as nat);
    lemma_back_sweep(t, g1, b as nat, l + 1);
    lemma_back_sweep(t, g2, l + 1, l);
    lemma_back_leaves(t, g3, l);
    assert(back(t, gs, t.len()) == g3);
    assert forall|i: nat| i < n implies #[trigger] block_at_added(
        g3,
        gs,
        t,
        l,
        leaves,
        ids,
        scale,
        last,
        n,
        i,
    ) by {
        assert(block_at_added(g2, g1, t, l, leaves, ids, scale, last, n, i));
        lemma_placed(leaves, i);
        lemma_off_grows(leaves, 0, i);
        let bi = base(l, leaves, ids, scale, i);
        assert forall|q: int| off(leaves, i) <= q < off(leaves, i + 1) implies #[trigger] g3[q]
            == g2[q] by {}
        assert forall|q: int| off(leaves, i) <= q < off(leaves, i + 1) implies #[trigger] gs[q]
            == g1[q] by {
            assert(g1[q] == gs[q]);
        }
        lemma_added_stays(
            g2,
            g1,
            g3,
            gs,
            t,
            bi,
            (bi - 1) as usize,
            leaves,
            i,
            scale,
            blocks_grad_at(t, l, leaves, ids, scale, last, n, i + 1),
        );
    }
}

/// The trace of a window is a tape of a scored window.
proof fn lemma_trace_made<T: Float>(
    w: WindowTrace<T>,
    m: Model<T>,
    input: Seq<usize>,
    target: Seq<usize>,
)
    requires
        order_free::<T>(),
        deterministic::<T>(),
        m.shaped(),
        m.config.n_heads > 0,
        trace_ok(w, m, input, target),
        w.scored.nodes.len() <= usize::MAX,
    ensures
        window_made(
            w.scored.nodes,
            seeded(w.scored, (w.scored.nodes.len() - 1) as usize),
            w.leafed.nodes.len(),
            w.leaves,
            input,
            target,
            score_scale::<T>(m.config.head_dim),
        ),
{
    reveal(window_made);
    let t = w.scored.nodes;
    let l = w.leafed.nodes.len();
    let leaves = w.leaves;
    let scale = score_scale::<T>(m.config.head_dim);
    let n = leaves.blocks@.len();
    let last = (t.len() - 1) as usize;
    let gs = seeded(w.scored, last);
    let steps = forward_steps(l as int, leaves, input, scale);
    assert(t.drop_last() == w.run.nodes);
    assert forall|j: int| 0 <= j < n implies (#[trigger] leaves.blocks@[j]).heads@.len() >= 1 by {
        assert(same_block(leaves.parts().blocks[j], m.parts().blocks[j]));
        assert(block_shaped(m.blocks@[j], m.config));
    }
    assert(made_by(t, l as int, steps)) by {
        assert forall|k: int| 0 <= k < steps.len() implies (#[trigger] t[l + k]).step
            == steps[k] by {
            assert(t.drop_last()[l + k] == t[l + k]);
            assert(w.run.nodes[w.leafed.nodes.len() + k].step == steps[k]);
        }
    }
    let body = body_steps(l as int, leaves, input, scale, n);
    let b = l as int + body.len();
    let tail = tail_steps::<T>(b, (b - 1) as usize, leaves.token_embed.id);
    assert(steps == body + tail);
    lemma_made_split(t, l as int, body, tail);
    lemma_body_made(t, l, leaves, input, scale, n);
    assert(base(l, leaves, input, scale, n) == b) by {
        reveal(base);
    }
    assert(items(leaves.parts())[0] == leaves.token_embed);
    assert(tail.len() == 5);
    assert(t[b + 0].step == tail[0]);
    assert(t[b + 1].step == tail[1]);
    assert(t[b + 2].step == tail[2]);
    assert(t[b + 3].step == tail[3]);
    assert(t[b + 4].step == tail[4]);
    assert(t[b + 5].step == t.last().step);
    let none = Seq::new(items(m.parts()).len(), |k: int| Step::<T>::Leaf);
    assert forall|j: int| 0 <= j < l implies (#[trigger] t[j]).step == Step::<T>::Leaf by {
        assert(t.drop_last()[j] == t[j]);
        assert(w.run.nodes.take(l as int)[j] == w.run.nodes[j]);
        assert(w.leafed.nodes[w.empty.nodes.len() + j].step == none[j]);
    }
    assert(ready(t, gs)) by {
        reveal(ready);
        let ones = filled(t[last as int].value.dims, fone::<T>());
        assert forall|i: int| 0 <= i < t.len() implies (#[trigger] gs[i]).wf() && gs[i].dims
            == t[i].value.dims by {
            assert(w.scored.grads[i].wf());
        }
    }
    assert forall|j: int| 0 <= j < t.len() - 1 implies #[trigger] untouched(gs, j) by {
        reveal(zeros);
        let gr = w.scored.grads;
        assert(gr.drop_last()[j] == gr[j]);
        if j < l {
            assert(w.run.grads.take(l as int)[j] == w.run.grads[j]);
            assert(w.leafed.grads[j] == filled(
                w.leafed.nodes[j].value.dims,
                fzero::<T>(),
            ));
        } else {
            assert(w.run.grads[j] == filled(w.run.nodes[j].value.dims, fzero::<T>()));
        }
    }
}

/// The leaves of a trace hold the weights of its model, as a device does.
proof fn lemma_trace_values<T: Float>(
    w: WindowTrace<T>,
    m: Model<T>,
    input: Seq<usize>,
    target: Seq<usize>,
    bs: Seq<DeviceBlock<Tensor<T>>>,
)
    requires
        trace_ok(w, m, input, target),
        holds_model(bs, m),
    ensures
        same_values(w.scored.nodes, w.leaves, bs),
        w.scored.nodes[w.leaves.token_embed.id as int].value == m@.embed,
{
    let t = w.scored.nodes;
    let l = w.leafed.nodes.len();
    let leaves = w.leaves;
    lemma_planted(w.empty, w.leafed, m, leaves);
    assert forall|j: int| 0 <= j < l implies #[trigger] t[j] == w.leafed.nodes[j] by {
        assert(t.drop_last()[j] == t[j]);
        assert(w.run.nodes.take(l as int)[j] == w.run.nodes[j]);
    }
    assert(leaf_arrays(w.leafed, leaves).embed == m@.embed);
    assert forall|j: int| 0 <= j < bs.len() implies #[trigger] same_block_values(
        t,
        leaves,
        bs,
        j,
    ) by {
        let b = leaves.blocks@[j];
        assert(leaf_arrays(w.leafed, leaves).blocks[j] == m@.blocks[j]);
        assert(block_arrays(w.leafed, b) == m@.blocks[j]);
        assert(holds_block(bs[j], m.blocks@[j]));
        let (ws, hv) = (heads_weights(t, b.heads@), heads_val(bs[j].heads@));
        assert(b.heads@.len() == m@.blocks[j].heads.len());
        assert forall|i: int| 0 <= i < ws.len() implies #[trigger] ws[i] == hv[i] by {
            let h = leaves.blocks@[j].heads@[i];
            assert(w.leafed.has(h.w_q) && w.leafed.has(h.w_k) && w.leafed.has(h.w_v)
                && w.leafed.has(h.w_o));
            assert(block_arrays(w.leafed, b).heads[i] == m@.blocks[j].heads[i]);
            assert(bs[j].heads@[i].w_q@ == m.blocks@[j].heads@[i].w_q@);
        }
        assert(ws =~= hv);
    }
}

/// The backward pass of a window on a device of exact tensors gives every weight the
/// gradient that the tape gives it.
pub proof fn law_window_backward_matches_tape<T: Float>(
    w: WindowTrace<T>,
    m: Model<T>,
    input: Seq<usize>,
    target: Seq<usize>,
    bs: Seq<DeviceBlock<Tensor<T>>>,
    sv: WindowSaved<Tensor<T>>,
    d: WindowGrads<Tensor<T>>,
)
    requires
        order_free::<T>(),
        deterministic::<T>(),
        m.shaped(),
        m.config.n_heads > 0,
        trace_ok(w, m, input, target),
        w.scored.nodes.len() <= usize::MAX,
        holds_model(bs, m),
        sv.block_inputs@.len() == bs.len() + 1,
        window_saved_bit_ok(
            sv,
            embed_of(m@.embed, input),
            bs,
            m@.embed,
            head_scale(m.config.head_dim),
        ),
        window_grads_bit_ok(
            d,
            logits_grad(
                filled(seq![1usize], fone::<T>()),
                w.run.nodes.last().value,
                target,
            ),
            sv,
            bs,
            head_scale(m.config.head_dim),
        ),
        window_grads_fit(
            d,
            bs,
            input.len() as usize,
            m.config.hidden_dim,
            m.config.vocab_size,
        ),
    ensures
        items(window_grads_of(d, input)).len() == items(m.parts()).len(),
        forall|k: int|
            0 <= k < items(m.parts()).len() ==> #[trigger] trace_grads(w)[k] == items(
                window_grads_of(d, input),
            )[k],
{
    let t = w.scored.nodes;
    let l = w.leafed.nodes.len();
    let scale = score_scale::<T>(m.config.head_dim);
    let gs = seeded(w.scored, (t.len() - 1) as usize);
    let g = logits_grad(filled(seq![1usize], fone::<T>()), w.run.nodes.last().value, target);
    lemma_trace_window(w, m, input, target, bs);
    lemma_device_pass(t, gs, l, w.leaves, input, target, scale, bs, sv, d, g, m.config);
    lemma_window_match(t, gs, l, w.leaves, input, target, scale, bs, sv, d, g, m.config);
    lemma_listed(w.leaves, trace_grads(w), window_grads_of(d, input));
}

/// What is arranged by the leaves is listed in their order.
proof fn lemma_listed<T: Float>(leaves: ModelLeaves, r: Seq<Array<T>>, p: ModelOf<Array<T>>)
    requires
        consecutive(items(leaves.parts()), 0),
        map_model(leaves.parts(), |v: Var| r[v.id as int]) == p,
    ensures
        items(p).len() == items(leaves.parts()).len(),
        forall|k: int| 0 <= k < items(p).len() ==> #[trigger] items(p)[k] == r[k],
{
    let f = |v: Var| r[v.id as int];
    lemma_items_map(leaves.parts(), f);
    assert forall|k: int| 0 <= k < items(p).len() implies #[trigger] items(p)[k] == r[k] by {
        assert(items(leaves.parts())[k].id == k);
    }
}

/// The tape of a trace, over the weights that a device holds.
proof fn lemma_trace_window<T: Float>(
    w: WindowTrace<T>,
    m: Model<T>,
    input: Seq<usize>,
    target: Seq<usize>,
    bs: Seq<DeviceBlock<Tensor<T>>>,
)
    requires
        order_free::<T>(),
        deterministic::<T>(),
        m.shaped(),
        m.config.n_heads > 0,
        trace_ok(w, m, input, target),
        w.scored.nodes.len() <= usize::MAX,
        holds_model(bs, m),
    ensures
        ({
            let t = w.scored.nodes;
            let gs = seeded(w.scored, (t.len() - 1) as usize);
            &&& window_made(
                t,
                gs,
                w.leafed.nodes.len(),
                w.leaves,
                input,
                target,
                score_scale::<T>(m.config.head_dim),
            )
            &&& same_values(t, w.leaves, bs)
            &&& t.len() >= 2
            &&& t[0].value == m@.embed
            &&& t[0].value.dims == seq![m.config.vocab_size, m.config.hidden_dim]
            &&& gs[t.len() - 1] == filled(seq![1usize], fone::<T>())
            &&& t[t.len() - 2].value == w.run.nodes.last().value
            &&& consecutive(items(w.leaves.parts()), 0)
            &&& items(w.leaves.parts()).len() == items(m.parts()).len()
        }),
{
    let t = w.scored.nodes;
    lemma_trace_made(w, m, input, target);
    lemma_trace_values(w, m, input, target, bs);
    reveal(window_made);
    assert(entry_ok(t, t.len() - 1));
    assert(t.drop_last()[t.len() - 2] == t[t.len() - 2]);
}

/// What a device saved and gave back belongs to the tape of a scored window.
proof fn lemma_device_pass<T: Float>(
    t: Seq<Entry<T>>,
    gs: Seq<Array<T>>,
    l: nat,
    leaves: ModelLeaves,
    ids: Seq<usize>,
    targets: Seq<usize>,
    scale: T,
    bs: Seq<DeviceBlock<Tensor<T>>>,
    sv: WindowSaved<Tensor<T>>,
    d: WindowGrads<Tensor<T>>,
    g: Array<T>,
    c: ModelConfig,
)
    requires
        window_made(t, gs, l, leaves, ids, targets, scale),
        same_values(t, leaves, bs),
        sv.block_inputs@.len() == bs.len() + 1,
        window_saved_bit_ok(sv, embed_of(t[0].value, ids), bs, t[0].value, scale),
        window_grads_bit_ok(d, g, sv, bs, scale),
        window_grads_fit(d, bs, ids.len() as usize, c.hidden_dim, c.vocab_size),
    ensures
        device_pass(t, l, leaves, ids, scale, bs, sv, d, g),
{
    lemma_window_embeds(t, gs, l, leaves, ids, targets, scale);
    reveal(window_made);
    reveal(device_pass);
}

/// What the first node after the leaves holds.
proof fn lemma_window_embeds<T: Float>(
    t: Seq<Entry<T>>,
    gs: Seq<Array<T>>,
    l: nat,
    leaves: ModelLeaves,
    ids: Seq<usize>,
    targets: Seq<usize>,
    scale: T,
)
    requires
        window_made(t, gs, l, leaves, ids, targets, scale),
    ensures
        t[l as int].value == embed_of(t[0].value, ids),
{
    reveal(window_made);
    reveal(ready);
    assert(entry_ok(t, l as int));
}

/// The gradients at the leaves are those that the device gives.
proof fn lemma_window_match<T: Float>(
    t: Seq<Entry<T>>,
    gs: Seq<Array<T>>,
    l: nat,
    leaves: ModelLeaves,
    ids: Seq<usize>,
    targets: Seq<usize>,
    scale: T,
    bs: Seq<DeviceBlock<Tensor<T>>>,
    sv: WindowSaved<Tensor<T>>,
    d: WindowGrads<Tensor<T>>,
    g: Array<T>,
    c: ModelConfig,
)
    requires
        window_made(t, gs, l, leaves, ids, targets, scale),
        device_pass(t, l, leaves, ids, scale, bs, sv, d, g),
        g == logits_grad(gs[t.len() - 1], t[t.len() - 2].value, targets),
        t[0].value.dims == seq![c.vocab_size, c.hidden_dim],
        window_grads_fit(d, bs, ids.len() as usize, c.hidden_dim, c.vocab_size),
    ensures
        map_model(
            leaves.parts(),
            |v: Var| back(t, gs, t.len())[v.id as int],
        ) == window_grads_of(d, ids),
{
    reveal(window_made);
    reveal(device_pass);
    let n = leaves.blocks@.len();
    let r = back(t, gs, t.len());
    lemma_window_back(t, gs, l, leaves, ids, targets, scale);
    lemma_base_above(t, l, leaves, ids, scale, n);
    let b = base(l, leaves, ids, scale, n);
    let x = t[b - 1].value;
    let last = tail_grad(x, t[0].value, g);
    lemma_inputs_match(t, gs, l, leaves, ids, scale, bs, n);
    lemma_tail_match(t, l, leaves, ids, scale, bs, sv, d, g);
    let p = window_grads_of(d, ids);
    let f = |v: Var| r[v.id as int];
    let q = map_model(leaves.parts(), f);
    assert forall|j: int| 0 <= j < n implies #[trigger] q.blocks[j] == p.blocks[j] by {
        assert(block_at_added(r, gs, t, l, leaves, ids, scale, last, n, j as nat));
        lemma_window_block(t, gs, r, l, leaves, ids, targets, scale, bs, sv, d, g, c, j);
    }
    assert(q.blocks =~= p.blocks);
    if n > 0 {
        lemma_chain_match(t, gs, l, leaves, ids, scale, bs, sv, d, g, last, 0);
    }
    lemma_tied_sum(
        t,
        gs,
        d,
        ids,
        c,
        blocks_grad_at(t, l, leaves, ids, scale, last, n, 0),
    );
    assert(q.embed == p.embed);
}

/// The gradients at the leaves of block `j` are those that the device gives.
proof fn lemma_window_block<T: Float>(
    t: Seq<Entry<T>>,
    gs: Seq<Array<T>>,
    r: Seq<Array<T>>,
    l: nat,
    leaves: ModelLeaves,
    ids: Seq<usize>,
    targets: Seq<usize>,
    scale: T,
    bs: Seq<DeviceBlock<Tensor<T>>>,
    sv: WindowSaved<Tensor<T>>,
    d: WindowGrads<Tensor<T>>,
    g: Array<T>,
    c: ModelConfig,
    j: int,
)
    requires
        window_made(t, gs, l, leaves, ids, targets, scale),
        device_pass(t, l, leaves, ids, scale, bs, sv, d, g),
        window_grads_fit(d, bs, ids.len() as usize, c.hidden_dim, c.vocab_size),
        0 <= j < bs.len(),
        bs.len() == leaves.blocks@.len(),
        block_at_added(
            r,
            gs,
            t,
            l,
            leaves,
            ids,
            scale,
            final_grad_bit_of::<Tensor<T>>(g, sv),
            bs.len(),
            j as nat,
        ),
    ensures
        map_block(leaves.parts().blocks[j], |v: Var| r[v.id as int]) == block_grads_of(
            d.blocks@[j],
        ),
{
    let last = final_grad_bit_of::<Tensor<T>>(g, sv);
    let shape = seq![ids.len() as usize, c.hidden_dim];
    assert(ready(t, gs) && l <= t.len() && all_untouched(gs, 1, l as int)) by {
        reveal(window_made);
        assert forall|k: int| 1 <= k < l implies #[trigger] untouched(gs, k) by {}
    }
    assert(block_grads_fit(d.blocks@[j], bs[j].heads@, bs[j].ffn, shape, bs[j].heads@.len()));
    lemma_block_final(
        t,
        gs,
        r,
        l,
        leaves,
        ids,
        scale,
        bs,
        sv,
        d,
        g,
        last,
        shape,
        j as nat,
    );
    lemma_block_arranged(leaves, r, d.blocks@[j], j);
}

/// The gradients of a block, arranged.
proof fn lemma_block_arranged<T: Float>(
    leaves: ModelLeaves,
    r: Seq<Array<T>>,
    d: BlockGrads<Tensor<T>>,
    j: int,
)
    requires
        0 <= j < leaves.blocks@.len(),
        ({
            let w = leaves.blocks@[j];
            let p = block_grads_of(d);
            &&& p.heads.len() == w.heads@.len()
            &&& r[w.ffn_gate_w.id as int] == p.gate
            &&& r[w.ffn_up_w.id as int] == p.up
            &&& r[w.ffn_down_w.id as int] == p.down
            &&& forall|i: int|
                0 <= i < w.heads@.len() ==> {
                    let h = #[trigger] w.heads@[i];
                    &&& r[h.w_q.id as int] == p.heads[i].w_q
                    &&& r[h.w_k.id as int] == p.heads[i].w_k
                    &&& r[h.w_v.id as int] == p.heads[i].w_v
                    &&& r[h.w_o.id as int] == p.heads[i].w_o
                }
        }),
    ensures
        map_block(leaves.parts().blocks[j], |v: Var| r[v.id as int]) == block_grads_of(d),
{
    let w = leaves.blocks@[j];
    let f = |v: Var| r[v.id as int];
    assert(leaves.parts().blocks[j] == block_vars(w));
    let (a, p) = (map_block(block_vars(w), f), block_grads_of(d));
    assert forall|i: int| 0 <= i < w.heads@.len() implies #[trigger] a.heads[i] == p.heads[i] by {
        let h = w.heads@[i];
    }
    assert(a.heads =~= p.heads);
}

/// What the tied projection passes back on a tape, it passes back on a device.
proof fn lemma_tail_match<T: Float>(
    t: Seq<Entry<T>>,
    l: nat,
    leaves: ModelLeaves,
    ids: Seq<usize>,
    scale: T,
    bs: Seq<DeviceBlock<Tensor<T>>>,
    sv: WindowSaved<Tensor<T>>,
    d: WindowGrads<Tensor<T>>,
    g: Array<T>,
)
    requires
        device_pass(t, l, leaves, ids, scale, bs, sv, d, g),
        leaves.token_embed.id == 0,
        t[base(l, leaves, ids, scale, bs.len()) - 1].value == blocks_out_bit_of::<Tensor<T>>(
            t[l as int].value,
            bs,
            scale,
            bs.len(),
        ),
    ensures
        ({
            let x = t[base(l, leaves, ids, scale, bs.len()) - 1].value;
            &&& tail_grad(x, t[0].value, g) == final_grad_bit_of::<Tensor<T>>(g, sv)
            &&& tail_embed(rmsnorm_of(x), g) == d.grad_embed@
            &&& bs.len() == 0 ==> d.grad_x@ == tail_grad(x, t[0].value, g)
            &&& bs.len() > 0 ==> d.grad_x@ == d.blocks@[0].grad_x@
        }),
{
    reveal(device_pass);
    let n = bs.len() as int;
    assert(sv.block_inputs@[n].val() == blocks_out_bit_of::<Tensor<T>>(
        t[l as int].value,
        bs,
        scale,
        bs.len(),
    ));
}

/// The two shares of the embedding's gradient, in either order.
proof fn lemma_tied_sum<T: Float>(
    t: Seq<Entry<T>>,
    gs: Seq<Array<T>>,
    d: WindowGrads<Tensor<T>>,
    ids: Seq<usize>,
    c: ModelConfig,
    first: Array<T>,
)
    requires
        ready(t, gs),
        first == d.grad_x@,
        t.len() > 0,
        t[0].value.dims == seq![c.vocab_size, c.hidden_dim],
        is_mat(d.grad_embed, c.vocab_size, c.hidden_dim),
        fit(embed_grad_of(first, t[0].value, ids), t[0].value.dims),
    ensures
        add_of(d.grad_embed@, embed_grad_of(first, t[0].value, ids)) == tied_grad_of(
            d.grad_x@,
            d.grad_embed@,
            ids,
        ),
{
    let e = embed_grad_of(first, t[0].value, ids);
    lemma_ready_sum(t, gs, d.grad_embed@, e, t[0].value.dims);
    assert(t[0].value.wf()) by {
        reveal(ready);
        assert(entry_ok(t, 0));
    }
    assert(embed_grad_of(first, d.grad_embed@, ids) == e);
}

/// Scaling by the reciprocal of a count, taken once, is dividing by the count.
pub open spec fn mean_exact<T: Float>() -> bool {
    forall|a: T, n: usize|
        fmul(a, fmul(fone::<T>(), fdiv(fone::<T>(), #[trigger] fcount::<T>(n)))) == #[trigger] fdiv(
            a,
            fcount::<T>(n),
        )
}

/// Rows that are the same make the same matrix.
proof fn lemma_flat_same<T>(m: nat, g: spec_fn(nat) -> Seq<T>, h: spec_fn(nat) -> Seq<T>)
    requires
        forall|i: nat| i < m ==> #[trigger] g(i) == h(i),
    ensures
        flat(m, g) == flat(m, h),
    decreases m,
{
    if m > 0 {
        lemma_flat_same((m - 1) as nat, g, h);
        assert(g((m - 1) as nat) == h((m - 1) as nat));
    }
}

/// The gradient of the logits on a device of exact tensors is that of the tape.
pub proof fn law_loss_grad_matches_tape<T: Float>(logits: Array<T>, targets: Seq<usize>)
    requires
        mean_exact::<T>(),
        logits.wf(),
        logits.dims.len() == 2,
    ensures
        <Tensor<T> as CrossEntropyBackward>::cross_entropy_backward_of(
            softmax_of(logits),
            targets,
            logits.dims[0],
        ) == logits_grad(filled(seq![1usize], fone::<T>()), logits, targets),
{
    let probs = softmax_of(logits);
    let seed = filled(seq![1usize], fone::<T>());
    lemma_volume1(seq![1usize]);
    assert(seed.data[0] == fone::<T>());
    let f = fmul(seed.data[0], fdiv(fone::<T>(), fcount::<T>(probs.dims[0])));
    let g = mean_grad_rows(probs, targets, logits.dims[0]);
    let h = loss_grad_rows(probs, targets, f);
    assert forall|i: nat| i < probs.dims[0] implies #[trigger] g(i) == h(i) by {
        assert(g(i) =~= h(i));
    }
    lemma_flat_same(probs.dims[0] as nat, g, h);
}

} // verus!
