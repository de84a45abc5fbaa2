//! The backward passes of an attention head and of a feed-forward layer of plain
//! projections, written out by hand, against the tape.
use crate::autograd::{back, entry_ok, grads_ok, nodes_ok, Entry, NodeId, Step};
use crate::block::AttentionHeadVars;
use crate::device::{
    ffn_grads_of, ffn_out_of, ffn_saved_of, head_grads_of, head_out_of, head_saved_of,
    AttentionHeadGrads, FfnGrads,
};
use crate::float::{deterministic, Float};
use crate::gradients::lemma_back_leaves;
use crate::ops::{causal_mask_grad_of, rope_grad_of, softmax_grad_of};
use crate::sweep::{
    all_untouched, ffn_weights, fit, head_apart, head_weights, lemma_back_sweep, lemma_mask_pass,
    lemma_matmul_pass, lemma_mul_pass, lemma_product_add, lemma_ready_sum, lemma_rope_pass,
    lemma_scale_pass, lemma_silu_pass, lemma_softmax_pass, lemma_sweep_split, lemma_transpose_pass,
    order_free, ready, sweep, untouched,
};
use crate::tensor::{add_of, matmul_of, scale_of, transpose_of, Array, Tensor};
use vstd::prelude::*;

verus! {

/// The nodes of a feed-forward layer of plain projections, recorded from node `b` on.
pub open spec fn plain_ffn_made<T>(
    t: Seq<Entry<T>>,
    b: int,
    x: NodeId,
    gate: NodeId,
    up: NodeId,
    down: NodeId,
) -> bool {
    &&& 0 <= b
    &&& b + 5 <= t.len() <= usize::MAX
    &&& t[b].step == Step::<T>::MatMul(x, gate)
    &&& t[b + 1].step == Step::<T>::Silu(b as usize)
    &&& t[b + 2].step == Step::<T>::MatMul(x, up)
    &&& t[b + 3].step == Step::<T>::Mul((b + 1) as usize, (b + 2) as usize)
    &&& t[b + 4].step == Step::<T>::MatMul((b + 3) as usize, down)
}

/// The gradients of a feed-forward layer of plain projections, from the values on a tape.
pub open spec fn plain_ffn_grads_at<T: Float>(
    t: Seq<Entry<T>>,
    x: NodeId,
    gate: NodeId,
    up: NodeId,
    down: NodeId,
    g: Array<T>,
) -> FfnGrads<Array<T>> {
    let w = ffn_weights(t, gate, up, down);
    let v = t[x as int].value;
    ffn_grads_of::<Tensor<T>>(g, v, ffn_saved_of::<Tensor<T>>(v, w), w)
}

/// The values on the nodes of a feed-forward layer of plain projections.
proof fn lemma_plain_ffn_values<T: Float>(
    t: Seq<Entry<T>>,
    gs: Seq<Array<T>>,
    b: int,
    x: NodeId,
    gate: NodeId,
    up: NodeId,
    down: NodeId,
)
    requires
        ready(t, gs),
        plain_ffn_made(t, b, x, gate, up, down),
    ensures
        ({
            let sv = ffn_saved_of::<Tensor<T>>(
                t[x as int].value,
                ffn_weights(t, gate, up, down),
            );
            &&& t[b].value == sv.gate_pre
            &&& t[b + 1].value == sv.gate
            &&& t[b + 2].value == sv.up
            &&& t[b + 3].value == sv.h
        }),
{
    reveal(ready);
    assert(entry_ok(t, b));
    assert(entry_ok(t, b + 1));
    assert(entry_ok(t, b + 2));
    assert(entry_ok(t, b + 3));
}

/// The nodes are apart, and lie before node `b`.
pub open spec fn four_apart(b: int, x: NodeId, gate: NodeId, up: NodeId, down: NodeId) -> bool {
    &&& x < b && gate < b && up < b && down < b
    &&& x != gate && x != up && x != down && gate != up && gate != down && up != down
}

/// The sweep over a feed-forward layer of plain projections leaves the gradients that its
/// backward pass gives.
proof fn lemma_plain_ffn_sweep<T: Float>(
    t: Seq<Entry<T>>,
    gs: Seq<Array<T>>,
    b: int,
    x: NodeId,
    gate: NodeId,
    up: NodeId,
    down: NodeId,
)
    requires
        ready(t, gs),
        plain_ffn_made(t, b, x, gate, up, down),
        four_apart(b, x, gate, up, down),
        all_untouched(gs, 0, b + 4),
    ensures
        ({
            let r = sweep(t, gs, b + 5, b);
            let f = plain_ffn_grads_at(t, x, gate, up, down, gs[b + 4]);
            &&& r[x as int] == f.grad_x
            &&& r[gate as int] == f.grad_w_gate
            &&& r[up as int] == f.grad_w_up
            &&& r[down as int] == f.grad_w_down
        }),
{
    assert(untouched(gs, b) && untouched(gs, b + 1) && untouched(gs, b + 2));
    assert(untouched(gs, b + 3) && untouched(gs, x as int) && untouched(gs, gate as int));
    assert(untouched(gs, up as int) && untouched(gs, down as int));
    lemma_plain_ffn_values(t, gs, b, x, gate, up, down);
    lemma_matmul_pass(t, gs, b + 4, (b + 3) as usize, down);
    let g1 = sweep(t, gs, b + 5, b + 4);
    assert(g1[b + 1] == gs[b + 1] && g1[b + 2] == gs[b + 2] && g1[b] == gs[b]);
    assert(g1[x as int] == gs[x as int] && g1[gate as int] == gs[gate as int]);
    assert(g1[up as int] == gs[up as int]);
    lemma_mul_pass(t, g1, b + 3, (b + 1) as usize, (b + 2) as usize);
    let g2 = sweep(t, g1, b + 4, b + 3);
    assert(g2[b] == g1[b] && g2[x as int] == g1[x as int] && g2[gate as int] == g1[gate as int]);
    assert(g2[up as int] == g1[up as int] && g2[down as int] == g1[down as int]);
    lemma_product_add(t, g2, b + 2, x, up);
    lemma_matmul_pass(t, g2, b + 2, x, up);
    let g3 = sweep(t, g2, b + 3, b + 2);
    assert(g3[b + 1] == g2[b + 1] && g3[b] == g2[b] && g3[gate as int] == g2[gate as int]);
    assert(g3[down as int] == g2[down as int]);
    lemma_silu_pass(t, g3, b + 1, b as usize);
    let g4 = sweep(t, g3, b + 2, b + 1);
    assert(g4[x as int] == g3[x as int] && g4[gate as int] == g3[gate as int]);
    assert(g4[up as int] == g3[up as int] && g4[down as int] == g3[down as int]);
    lemma_product_add(t, g4, b, x, gate);
    let g5 = sweep(t, g4, b + 1, b);
    assert(g5[up as int] == g4[up as int] && g5[down as int] == g4[down as int]);
    lemma_ready_sum(
        t,
        gs,
        g3[x as int],
        matmul_of(g4[b], transpose_of(t[gate as int].value)),
        t[x as int].value.dims,
    );
    lemma_sweep_split(t, gs, b + 5, b + 4, b);
    lemma_sweep_split(t, g1, b + 4, b + 3, b);
    lemma_sweep_split(t, g2, b + 3, b + 2, b);
    lemma_sweep_split(t, g3, b + 2, b + 1, b);
}

/// The first `b` nodes are leaves.
pub open spec fn leaves_first<T>(t: Seq<Entry<T>>, b: int) -> bool {
    forall|k: int| 0 <= k < b ==> (#[trigger] t[k]).step == Step::<T>::Leaf
}

/// A feed-forward layer of plain projections and its backward pass give what the tape
/// gives: where the layer is recorded over leaves, last of all, and only its output has
/// a gradient.
pub proof fn law_plain_ffn_backward_matches_tape<T: Float>(
    t: Seq<Entry<T>>,
    gs: Seq<Array<T>>,
    b: int,
    x: NodeId,
    gate: NodeId,
    up: NodeId,
    down: NodeId,
)
    requires
        order_free::<T>(),
        deterministic::<T>(),
        nodes_ok(t),
        grads_ok(t, gs),
        leaves_first(t, b),
        t.len() == b + 5,
        plain_ffn_made(t, b, x, gate, up, down),
        four_apart(b, x, gate, up, down),
        all_untouched(gs, 0, b + 4),
    ensures
        ({
            let r = back(t, gs, t.len());
            let f = plain_ffn_grads_at(t, x, gate, up, down, gs[b + 4]);
            &&& t[b + 4].value == ffn_out_of::<Tensor<T>>(
                t[x as int].value,
                ffn_weights(t, gate, up, down),
            )
            &&& r[x as int] == f.grad_x
            &&& r[gate as int] == f.grad_w_gate
            &&& r[up as int] == f.grad_w_up
            &&& r[down as int] == f.grad_w_down
        }),
{
    assert(ready(t, gs)) by {
        reveal(ready);
    }
    lemma_plain_ffn_sweep(t, gs, b, x, gate, up, down);
    lemma_plain_ffn_values(t, gs, b, x, gate, up, down);
    assert(entry_ok(t, b + 4));
    lemma_back_sweep(t, gs, t.len(), b as nat);
    lemma_back_leaves(t, sweep(t, gs, b + 5, b), b as nat);
}

/// The nodes of a head of plain projections, recorded from node `b` on.
#[verifier::opaque]
pub open spec fn plain_head_made<T>(
    t: Seq<Entry<T>>,
    b: int,
    x: NodeId,
    h: AttentionHeadVars,
    scale: T,
) -> bool {
    &&& 0 <= b
    &&& b + 12 <= t.len() <= usize::MAX
    &&& t[b].step == Step::<T>::MatMul(x, h.w_q.id)
    &&& t[b + 1].step == Step::<T>::Rope(b as usize)
    &&& t[b + 2].step == Step::<T>::MatMul(x, h.w_k.id)
    &&& t[b + 3].step == Step::<T>::Rope((b + 2) as usize)
    &&& t[b + 4].step == Step::<T>::MatMul(x, h.w_v.id)
    &&& t[b + 5].step == Step::<T>::Transpose((b + 3) as usize)
    &&& t[b + 6].step == Step::<T>::MatMul((b + 1) as usize, (b + 5) as usize)
    &&& t[b + 7].step == Step::<T>::MulScalar((b + 6) as usize, scale)
    &&& t[b + 8].step == Step::<T>::CausalMask((b + 7) as usize)
    &&& t[b + 9].step == Step::<T>::Softmax((b + 8) as usize)
    &&& t[b + 10].step == Step::<T>::MatMul((b + 9) as usize, (b + 4) as usize)
    &&& t[b + 11].step == Step::<T>::MatMul((b + 10) as usize, h.w_o.id)
}

/// The gradients of a head of plain projections, from the values on a tape.
#[verifier::opaque]
pub open spec fn plain_head_grads_at<T: Float>(
    t: Seq<Entry<T>>,
    x: NodeId,
    h: AttentionHeadVars,
    scale: T,
    g: Array<T>,
) -> AttentionHeadGrads<Array<T>> {
    let w = head_weights(t, h);
    let v = t[x as int].value;
    head_grads_of::<Tensor<T>>(g, v, head_saved_of::<Tensor<T>>(v, w, scale), w, scale)
}

/// The values on the nodes of a head of plain projections.
proof fn lemma_plain_head_values<T: Float>(
    t: Seq<Entry<T>>,
    gs: Seq<Array<T>>,
    b: int,
    x: NodeId,
    h: AttentionHeadVars,
    scale: T,
)
    requires
        ready(t, gs),
        plain_head_made(t, b, x, h, scale),
    ensures
        ({
            let sv = head_saved_of::<Tensor<T>>(t[x as int].value, head_weights(t, h), scale);
            &&& t[b + 1].value == sv.q
            &&& t[b + 3].value == sv.k
            &&& t[b + 4].value == sv.v
            &&& t[b + 5].value == transpose_of(sv.k)
            &&& t[b + 9].value == sv.attn
            &&& t[b + 10].value == sv.ctx
        }),
{
    reveal(ready);
    reveal(plain_head_made);
    assert(entry_ok(t, b));
    assert(entry_ok(t, b + 1));
    assert(entry_ok(t, b + 2));
    assert(entry_ok(t, b + 3));
    assert(entry_ok(t, b + 4));
    assert(entry_ok(t, b + 5));
    assert(entry_ok(t, b + 6));
    assert(entry_ok(t, b + 7));
    assert(entry_ok(t, b + 8));
    assert(entry_ok(t, b + 9));
    assert(entry_ok(t, b + 10));
}

/// The sweep over the last part of a head of plain projections, down to its attention
/// weights and values.
proof fn lemma_plain_head_mix<T: Float>(t: Seq<Entry<T>>, gs: Seq<Array<T>>, b: int, o: NodeId)
    requires
        ready(t, gs),
        0 <= b,
        b + 12 <= t.len() <= usize::MAX,
        t[b + 10].step == Step::<T>::MatMul((b + 9) as usize, (b + 4) as usize),
        t[b + 11].step == Step::<T>::MatMul((b + 10) as usize, o),
        o < b,
        untouched(gs, b + 4) && untouched(gs, b + 9) && untouched(gs, b + 10),
        untouched(gs, o as int),
    ensures
        ({
            let r = sweep(t, gs, b + 12, b + 10);
            let gc = matmul_of(gs[b + 11], transpose_of(t[o as int].value));
            &&& ready(t, r)
            &&& r[b + 9] == matmul_of(gc, transpose_of(t[b + 4].value))
            &&& r[b + 4] == matmul_of(transpose_of(t[b + 9].value), gc)
            &&& r[o as int] == matmul_of(transpose_of(t[b + 10].value), gs[b + 11])
            &&& forall|j: int|
                0 <= j < b + 9 && j != b + 4 && j != o ==> #[trigger] r[j] == gs[j]
        }),
{
    lemma_matmul_pass(t, gs, b + 11, (b + 10) as usize, o);
    let g1 = sweep(t, gs, b + 12, b + 11);
    assert(g1[b + 9] == gs[b + 9] && g1[b + 4] == gs[b + 4]);
    lemma_matmul_pass(t, g1, b + 10, (b + 9) as usize, (b + 4) as usize);
    let g2 = sweep(t, g1, b + 11, b + 10);
    lemma_sweep_split(t, gs, b + 12, b + 11, b + 10);
    assert(g2[o as int] == g1[o as int]);
    assert forall|j: int| 0 <= j < b + 9 && j != b + 4 && j != o implies #[trigger] g2[j]
        == gs[j] by {
        assert(g1[j] == gs[j]);
    }
}

/// The sweep over the scores of a head, down to its rotated queries and keys.
proof fn lemma_plain_head_scores<T: Float>(t: Seq<Entry<T>>, gs: Seq<Array<T>>, b: int, scale: T)
    requires
        ready(t, gs),
        0 <= b,
        b + 10 <= t.len() <= usize::MAX,
        t[b + 5].step == Step::<T>::Transpose((b + 3) as usize),
        t[b + 6].step == Step::<T>::MatMul((b + 1) as usize, (b + 5) as usize),
        t[b + 7].step == Step::<T>::MulScalar((b + 6) as usize, scale),
        t[b + 8].step == Step::<T>::CausalMask((b + 7) as usize),
        t[b + 9].step == Step::<T>::Softmax((b + 8) as usize),
        untouched(gs, b + 1) && untouched(gs, b + 3) && untouched(gs, b + 5),
        untouched(gs, b + 6) && untouched(gs, b + 7) && untouched(gs, b + 8),
    ensures
        ({
            let r = sweep(t, gs, b + 10, b + 5);
            let raw = scale_of(
                causal_mask_grad_of(softmax_grad_of(gs[b + 9], t[b + 9].value)),
                scale,
            );
            &&& ready(t, r)
            &&& r[b + 1] == matmul_of(raw, transpose_of(t[b + 5].value))
            &&& r[b + 3] == transpose_of(matmul_of(transpose_of(t[b + 1].value), raw))
            &&& forall|j: int|
                0 <= j < b + 5 && j != b + 1 && j != b + 3 ==> #[trigger] r[j] == gs[j]
        }),
{
    lemma_softmax_pass(t, gs, b + 9, (b + 8) as usize);
    let g1 = sweep(t, gs, b + 10, b + 9);
    assert(g1[b + 7] == gs[b + 7]);
    lemma_mask_pass(t, g1, b + 8, (b + 7) as usize);
    let g2 = sweep(t, g1, b + 9, b + 8);
    assert(g2[b + 6] == g1[b + 6] && g1[b + 6] == gs[b + 6]);
    lemma_scale_pass(t, g2, b + 7, (b + 6) as usize, scale);
    let g3 = sweep(t, g2, b + 8, b + 7);
    assert(g3[b + 1] == g2[b + 1] && g2[b + 1] == g1[b + 1] && g1[b + 1] == gs[b + 1]);
    assert(g3[b + 5] == g2[b + 5] && g2[b + 5] == g1[b + 5] && g1[b + 5] == gs[b + 5]);
    lemma_matmul_pass(t, g3, b + 6, (b + 1) as usize, (b + 5) as usize);
    let g4 = sweep(t, g3, b + 7, b + 6);
    assert(g4[b + 3] == g3[b + 3] && g3[b + 3] == g2[b + 3] && g2[b + 3] == g1[b + 3]
        && g1[b + 3] == gs[b + 3]);
    lemma_transpose_pass(t, g4, b + 5, (b + 3) as usize);
    let g5 = sweep(t, g4, b + 6, b + 5);
    lemma_sweep_split(t, gs, b + 10, b + 9, b + 5);
    lemma_sweep_split(t, g1, b + 9, b + 8, b + 5);
    lemma_sweep_split(t, g2, b + 8, b + 7, b + 5);
    lemma_sweep_split(t, g3, b + 7, b + 6, b + 5);
    assert(g5[b + 1] == g4[b + 1]);
    assert forall|j: int| 0 <= j < b + 5 && j != b + 1 && j != b + 3 implies #[trigger] g5[j]
        == gs[j] by {
        assert(g4[j] == g3[j]);
        assert(g3[j] == g2[j]);
        assert(g2[j] == g1[j]);
        assert(g1[j] == gs[j]);
    }
}

/// What a plain projection passes back to its input.
spec fn to_left<T: Float>(g: Array<T>, w: Array<T>) -> Array<T> {
    matmul_of(g, transpose_of(w))
}

/// What a plain projection passes back to its weights.
spec fn to_right<T: Float>(x: Array<T>, g: Array<T>) -> Array<T> {
    matmul_of(transpose_of(x), g)
}

/// The sweep over the projections of a head of plain projections.
proof fn lemma_plain_head_inputs<T: Float>(
    t: Seq<Entry<T>>,
    gs: Seq<Array<T>>,
    b: int,
    x: NodeId,
    q: NodeId,
    k: NodeId,
    v: NodeId,
)
    requires
        ready(t, gs),
        0 <= b,
        b + 5 <= t.len() <= usize::MAX,
        t[b].step == Step::<T>::MatMul(x, q),
        t[b + 1].step == Step::<T>::Rope(b as usize),
        t[b + 2].step == Step::<T>::MatMul(x, k),
        t[b + 3].step == Step::<T>::Rope((b + 2) as usize),
        t[b + 4].step == Step::<T>::MatMul(x, v),
        x < b && q < b && k < b && v < b,
        x != q && x != k && x != v && q != k && q != v && k != v,
        untouched(gs, x as int) && untouched(gs, q as int) && untouched(gs, k as int),
        untouched(gs, v as int) && untouched(gs, b) && untouched(gs, b + 2),
    ensures
        ({
            let r = sweep(t, gs, b + 5, b);
            let (gq, gk, gv) = (rope_grad_of(gs[b + 1]), rope_grad_of(gs[b + 3]), gs[b + 4]);
            &&& r[x as int] == add_of(
                add_of(to_left(gv, t[v as int].value), to_left(gk, t[k as int].value)),
                to_left(gq, t[q as int].value),
            )
            &&& fit(to_left(gq, t[q as int].value), t[x as int].value.dims)
            &&& fit(to_left(gk, t[k as int].value), t[x as int].value.dims)
            &&& fit(to_left(gv, t[v as int].value), t[x as int].value.dims)
            &&& r[q as int] == to_right(t[x as int].value, gq)
            &&& r[k as int] == to_right(t[x as int].value, gk)
            &&& r[v as int] == to_right(t[x as int].value, gv)
            &&& forall|j: int|
                0 <= j < b && j != x && j != q && j != k && j != v ==> #[trigger] r[j] == gs[j]
        }),
{
    lemma_product_add(t, gs, b + 4, x, v);
    lemma_matmul_pass(t, gs, b + 4, x, v);
    let g1 = sweep(t, gs, b + 5, b + 4);
    assert(g1[b + 3] == gs[b + 3] && g1[b + 2] == gs[b + 2] && g1[k as int] == gs[k as int]);
    lemma_rope_pass(t, g1, b + 3, (b + 2) as usize);
    let g2 = sweep(t, g1, b + 4, b + 3);
    assert(g2[x as int] == g1[x as int] && g2[k as int] == g1[k as int]);
    lemma_product_add(t, g2, b + 2, x, k);
    let g3 = sweep(t, g2, b + 3, b + 2);
    assert(g3[b + 1] == g2[b + 1] && g2[b + 1] == g1[b + 1] && g1[b + 1] == gs[b + 1]);
    assert(g3[b] == g2[b] && g2[b] == g1[b] && g1[b] == gs[b]);
    lemma_rope_pass(t, g3, b + 1, b as usize);
    let g4 = sweep(t, g3, b + 2, b + 1);
    assert(g4[x as int] == g3[x as int]);
    assert(g4[q as int] == g3[q as int] && g3[q as int] == g2[q as int] && g2[q as int]
        == g1[q as int] && g1[q as int] == gs[q as int]);
    lemma_product_add(t, g4, b, x, q);
    let g5 = sweep(t, g4, b + 1, b);
    lemma_sweep_split(t, gs, b + 5, b + 4, b);
    lemma_sweep_split(t, g1, b + 4, b + 3, b);
    lemma_sweep_split(t, g2, b + 3, b + 2, b);
    lemma_sweep_split(t, g3, b + 2, b + 1, b);
    assert(g5[v as int] == g4[v as int] && g4[v as int] == g3[v as int] && g3[v as int]
        == g2[v as int] && g2[v as int] == g1[v as int]);
    assert(g5[k as int] == g4[k as int] && g4[k as int] == g3[k as int]);
    assert forall|j: int|
        0 <= j < b && j != x && j != q && j != k && j != v implies #[trigger] g5[j] == gs[j] by {
        assert(g4[j] == g3[j]);
        assert(g3[j] == g2[j]);
        assert(g2[j] == g1[j]);
        assert(g1[j] == gs[j]);
    }
}

/// Three terms in either order.
proof fn lemma_reversed<T: Float>(
    t: Seq<Entry<T>>,
    gs: Seq<Array<T>>,
    q: Array<T>,
    k: Array<T>,
    v: Array<T>,
    dims: Seq<usize>,
)
    requires
        ready(t, gs),
        fit(q, dims) && fit(k, dims) && fit(v, dims),
    ensures
        add_of(add_of(v, k), q) == add_of(add_of(q, k), v),
{
    lemma_ready_sum(t, gs, v, k, dims);
    lemma_ready_sum(t, gs, add_of(v, k), q, dims);
    reveal(ready);
    crate::sweep::lemma_sum_order(q, k, v);
}

/// The sweep over a head of plain projections leaves the gradients that its backward pass
/// gives.
proof fn lemma_plain_head_sweep<T: Float>(
    t: Seq<Entry<T>>,
    gs: Seq<Array<T>>,
    b: int,
    x: NodeId,
    h: AttentionHeadVars,
    scale: T,
)
    requires
        ready(t, gs),
        plain_head_made(t, b, x, h, scale),
        head_apart(b, x, h),
        all_untouched(gs, 0, b + 11),
    ensures
        head_grads_left(
            sweep(t, gs, b + 12, b),
            x,
            h,
            plain_head_grads_at(t, x, h, scale, gs[b + 11]),
        ),
{
    let (q, k, v, o) = (h.w_q.id, h.w_k.id, h.w_v.id, h.w_o.id);
    assert(untouched(gs, b) && untouched(gs, b + 1) && untouched(gs, b + 2));
    assert(untouched(gs, b + 3) && untouched(gs, b + 4) && untouched(gs, b + 5));
    assert(untouched(gs, b + 6) && untouched(gs, b + 7) && untouched(gs, b + 8));
    assert(untouched(gs, b + 9) && untouched(gs, b + 10) && untouched(gs, x as int));
    assert(untouched(gs, q as int) && untouched(gs, k as int) && untouched(gs, v as int));
    assert(untouched(gs, o as int));
    lemma_plain_head_values(t, gs, b, x, h, scale);
    reveal(plain_head_made);
    lemma_plain_head_mix(t, gs, b, o);
    let g1 = sweep(t, gs, b + 12, b + 10);
    assert(g1[b + 1] == gs[b + 1] && g1[b + 3] == gs[b + 3] && g1[b + 5] == gs[b + 5]);
    assert(g1[b + 6] == gs[b + 6] && g1[b + 7] == gs[b + 7] && g1[b + 8] == gs[b + 8]);
    lemma_plain_head_scores(t, g1, b, scale);
    let g2 = sweep(t, g1, b + 10, b + 5);
    assert(g1[b] == gs[b] && g1[b + 2] == gs[b + 2]);
    assert(g2[b] == g1[b] && g2[b + 2] == g1[b + 2] && g2[b + 4] == g1[b + 4]);
    assert(g2[x as int] == g1[x as int] && g1[x as int] == gs[x as int]);
    assert(g2[q as int] == g1[q as int] && g1[q as int] == gs[q as int]);
    assert(g2[k as int] == g1[k as int] && g1[k as int] == gs[k as int]);
    assert(g2[v as int] == g1[v as int] && g1[v as int] == gs[v as int]);
    lemma_plain_head_inputs(t, g2, b, x, q, k, v);
    let r = sweep(t, g2, b + 5, b);
    lemma_sweep_split(t, gs, b + 12, b + 10, b);
    lemma_sweep_split(t, g1, b + 10, b + 5, b);
    assert(r[o as int] == g2[o as int] && g2[o as int] == g1[o as int]);
    lemma_reversed(
        t,
        gs,
        to_left(rope_grad_of(g2[b + 1]), t[q as int].value),
        to_left(rope_grad_of(g2[b + 3]), t[k as int].value),
        to_left(g2[b + 4], t[v as int].value),
        t[x as int].value.dims,
    );
    reveal(plain_head_grads_at);
}

/// The gradients of a head's input and weights are these.
pub open spec fn head_grads_left<T: Float>(
    r: Seq<Array<T>>,
    x: NodeId,
    h: AttentionHeadVars,
    d: AttentionHeadGrads<Array<T>>,
) -> bool {
    &&& r[x as int] == d.grad_x
    &&& r[h.w_q.id as int] == d.grad_w_q
    &&& r[h.w_k.id as int] == d.grad_w_k
    &&& r[h.w_v.id as int] == d.grad_w_v
    &&& r[h.w_o.id as int] == d.grad_w_o
}

/// An attention head of plain projections and its backward pass give what the tape gives:
/// where the head is recorded over leaves, last of all, and only its output has a
/// gradient.
pub proof fn law_plain_head_backward_matches_tape<T: Float>(
    t: Seq<Entry<T>>,
    gs: Seq<Array<T>>,
    b: int,
    x: NodeId,
    h: AttentionHeadVars,
    scale: T,
)
    requires
        order_free::<T>(),
        deterministic::<T>(),
        nodes_ok(t),
        grads_ok(t, gs),
        leaves_first(t, b),
        t.len() == b + 12,
        plain_head_made(t, b, x, h, scale),
        head_apart(b, x, h),
        all_untouched(gs, 0, b + 11),
    ensures
        t[b + 11].value == head_out_of::<Tensor<T>>(t[x as int].value, head_weights(t, h), scale),
        head_grads_left(
            back(t, gs, t.len()),
            x,
            h,
            plain_head_grads_at(t, x, h, scale, gs[b + 11]),
        ),
{
    assert(0 <= b && t.len() <= usize::MAX) by {
        reveal(plain_head_made);
    }
    assert(ready(t, gs)) by {
        reveal(ready);
    }
    lemma_plain_head_sweep(t, gs, b, x, h, scale);
    lemma_plain_head_values(t, gs, b, x, h, scale);
    assert(t[b + 11].value == head_out_of::<Tensor<T>>(
        t[x as int].value,
        head_weights(t, h),
        scale,
    )) by {
        reveal(plain_head_made);
        assert(entry_ok(t, b + 11));
    }
    lemma_back_sweep(t, gs, t.len(), b as nat);
    lemma_back_leaves(t, sweep(t, gs, b + 12, b), b as nat);
}

} // verus!
