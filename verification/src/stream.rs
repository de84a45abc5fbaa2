//! What the layers of the transformer do: attention weights, gates, the stream that blocks
//! add to, and the logits.
use crate::agreement::{grid, lemma_matrix_row, lemma_product_row, lemma_row, lemma_score_row};
use crate::attention::{attend_of, attention_of, head_of, score_scale};
use crate::bitlinear::{restored_acts, ternary_weights};
use crate::block::block_of;
use crate::device::{as_tape_block, ffn_val, head_scale, heads_val, law_block_matches_tape};
use crate::exact::{divisor, exact_div, exact_exp, exact_order, exps_multiply, ring_back, strict};
use crate::ffn::{ffn_of, gated_of};
use crate::float::{
    fadd, fbits, fcount, fdiv, fexp, flt, fmul, fneg, fone, fsqrt, fsub, fsum, fzero, Float,
};
use crate::gradients::{holds_block, holds_model};
use crate::identities::{
    ring, ring_add, ring_cross, ring_mul, ring_neg, ring_product, ring_spread, ring_sub, ring_sum,
    ring_zero,
};
use crate::layout::{
    blocks_items, items, lemma_ffn_place, lemma_head_place, lemma_heads_len, BlockOf, HeadOf,
    ModelOf,
};
use crate::model::{blocks_of, logits_of, Model};
use crate::ops::{
    causal_mask_of, embed_of, ids_below, masked_rows, picked_rows, rmsnorm_of, rope_of, row_max,
    shifted_exps, sigmoid, silu_grad_of, silu_of, silu_slope, softmax_row,
};
use crate::step::{blocks_out_bit_of, window_out_bit_of, DeviceBlock};
use crate::tensor::{add_of, matmul_of, scale_of, transpose_of, Array, Tensor};
use vstd::prelude::*;

verus! {

/// What a softmax takes off is the largest score: it is one of them, and none is above it;
/// it is negative infinity where no score is above that.
pub proof fn law_row_max_is_largest<T: Float>(s: Seq<T>, k: int)
    requires
        strict::<T>(),
        0 <= k < s.len(),
    ensures
        !flt(row_max(s), s[k]),
        row_max(s) == fbits::<T>(0xFF80_0000) || exists|j: int|
            0 <= j < s.len() && row_max(s) == #[trigger] s[j],
    decreases s.len(),
{
    let p = s.drop_last();
    let n = s.len() - 1;
    let (a, b) = (row_max(p), s.last());
    exact_order(b, b, b);
    if n > 0 {
        let i = if k < n { k } else { 0 };
        law_row_max_is_largest(p, i);
        exact_order(a, b, s[i]);
        if a != fbits::<T>(0xFF80_0000) {
            let j = choose|j: int| 0 <= j < p.len() && a == #[trigger] p[j];
            assert(p[j] == s[j]);
        }
    }
    assert(s[n] == b);
}

/// The weights of a softmax follow its scores: two of them stand to each other as the
/// exponentials of their scores.
pub proof fn law_softmax_follows_scores<T: Float>(s: Seq<T>, i: int, j: int)
    requires
        ring::<T>(),
        exps_multiply::<T>(),
        0 <= i < s.len(),
        0 <= j < s.len(),
    ensures
        softmax_row(s).len() == s.len(),
        fmul(softmax_row(s)[i], fexp(s[j])) == fmul(softmax_row(s)[j], fexp(s[i])),
{
    let m = row_max(s);
    let r = fdiv(fone::<T>(), fsum(shifted_exps(s)));
    lemma_weight_times(s[i], s[j], m, r);
    lemma_weight_times(s[j], s[i], m, r);
    ring_add(s[i], s[j]);
}

/// A shifted exponential with a factor, times another exponential.
proof fn lemma_weight_times<T: Float>(a: T, b: T, m: T, r: T)
    requires
        ring::<T>(),
        exps_multiply::<T>(),
    ensures
        fmul(fmul(fexp(fsub(a, m)), r), fexp(b)) == fmul(fexp(fsub(fadd(a, b), m)), r),
{
    let e = fexp(fsub(a, m));
    ring_product(e, r, fexp(b));
    ring_mul(r, fexp(b));
    ring_product(e, fexp(b), r);
    exact_exp(fsub(a, m), b);
    let n = fneg(m);
    ring_sub(a, m);
    ring_sum(a, n, b);
    ring_add(n, b);
    ring_sum(a, b, n);
    ring_sub(fadd(a, b), m);
}

/// The factor of the scores squared, times the width of the head, is one; and it is the
/// same on a device.
pub proof fn law_scores_are_scaled_by_root_of_width<T: Float>(d: usize)
    requires
        ring::<T>(),
        d > 0,
        fmul(fsqrt(fcount::<T>(d)), fsqrt(fcount::<T>(d))) == fcount::<T>(d),
        divisor(fsqrt(fcount::<T>(d))),
    ensures
        fmul(fmul(score_scale::<T>(d), score_scale::<T>(d)), fcount::<T>(d)) == fone::<T>(),
        head_scale::<T>(d) == score_scale::<T>(d),
{
    let r = fsqrt(fcount::<T>(d));
    let s = score_scale::<T>(d);
    exact_div(fone::<T>(), r);
    ring_cross(s, s, r, r);
    ring_mul(s, r);
    ring_product(fone::<T>(), fone::<T>(), fone::<T>());
}

/// A causal mask leaves a row as it is up to its own place, and puts negative infinity on
/// every later one.
pub proof fn law_mask_hides_later_places<T: Float>(x: Array<T>, n: usize, i: nat, j: int)
    requires
        grid(x, n, n),
        i < n,
        0 <= j < n,
    ensures
        j <= i ==> causal_mask_of(x).row(i)[j] == x.row(i)[j],
        j > i ==> causal_mask_of(x).row(i)[j] == fbits::<T>(0xFF80_0000),
{
    let neg = fbits::<T>(crate::float::NEG_INFINITY);
    lemma_row(x, n, n, i);
    assert forall|r: nat| r < n implies (#[trigger] masked_rows(x, neg)(r)).len() == n by {
        lemma_row(x, n, n, r);
    }
    lemma_matrix_row(n, n, masked_rows(x, neg), i);
}

/// The score of a query and a key not after it is their inner product times the factor.
pub proof fn law_score_is_scaled_inner_product<T: Float>(
    q: Array<T>,
    k: Array<T>,
    scale: T,
    s: usize,
    d: usize,
    i: nat,
    t: int,
)
    requires
        grid(q, s, d),
        grid(k, s, d),
        i < s,
        0 <= t <= i,
    ensures
        attend_of(q, k, scale).row(i) == softmax_row(
            causal_mask_of(scale_of(matmul_of(q, transpose_of(k)), scale)).row(i),
        ),
        causal_mask_of(scale_of(matmul_of(q, transpose_of(k)), scale)).row(i)[t] == fmul(
            fsum(Seq::new(d as nat, |p: int| fmul(q.row(i)[p], k.row(t as nat)[p]))),
            scale,
        ),
{
    lemma_score_row(q, k, scale, s, d, i);
    lemma_row(q, s, d, i);
    lemma_row(k, s, d, t as nat);
    crate::exact::lemma_dot_sum(q.row(i), k.row(t as nat), d as nat);
}

/// What a head gives for a row is the mean of the values that its attention weights weigh,
/// quantised and projected: the queries and keys are turned, the values are not.
pub proof fn law_head_mixes_values<T: Float>(
    x: Array<T>,
    h: HeadOf<Array<T>>,
    scale: T,
)
    ensures
        head_of(x, h, scale) == matmul_of(
            restored_acts(
                matmul_of(
                    attend_of(
                        rope_of(matmul_of(x, ternary_weights(h.w_q))),
                        rope_of(matmul_of(x, ternary_weights(h.w_k))),
                        scale,
                    ),
                    matmul_of(x, ternary_weights(h.w_v)),
                ),
            ),
            ternary_weights(h.w_o),
        ),
{
}

/// The logistic of a number and that of its negative add up to one.
pub proof fn law_logistic_is_symmetric<T: Float>(x: T)
    requires
        ring::<T>(),
        exps_multiply::<T>(),
        fexp(fzero::<T>()) == fone::<T>(),
        divisor(fadd(fone::<T>(), fexp(x))),
        divisor(fadd(fone::<T>(), fexp(fneg(x)))),
    ensures
        fmul(fadd(fone::<T>(), fexp(fneg(x))), sigmoid(x)) == fone::<T>(),
        fadd(sigmoid(x), sigmoid(fneg(x))) == fone::<T>(),
{
    let one = fone::<T>();
    let (e, f) = (fexp(x), fexp(fneg(x)));
    let (a, b) = (fadd(one, f), fadd(one, e));
    ring_neg(x, x);
    exact_div(one, a);
    exact_div(one, b);
    // e f is one, so e times the logistic of x's divisor is that of the other.
    exact_exp(x, fneg(x));
    ring_zero(x);
    ring_spread(one, f, e);
    ring_product(e, one, one);
    ring_add(e, one);
    ring_mul(e, f);
    assert(fmul(e, a) == b);
    // The logistic of the negative is 1 / (1 + e) = f / (1 + f).
    let (p, q) = (sigmoid(x), sigmoid(fneg(x)));
    assert(fmul(b, q) == one);
    ring_mul(e, a);
    ring_product(a, e, q);
    assert(fmul(a, fmul(e, q)) == one);
    // So e q = p.
    exact_div(fmul(e, q), a);
    assert(fmul(e, q) == fdiv(one, a));
    assert(p == fmul(e, q));
    // And p + q = (e + 1) q = 1.
    ring_spread(e, one, q);
    ring_mul(one, q);
    ring_product(q, one, one);
    ring_add(e, one);
}

/// The gated items of a tensor less those of its negative are the tensor itself; and the
/// gradients that the two hand back for one gradient add up to that gradient.
pub proof fn law_gate_is_number_times_logistic<T: Float>(
    xs: Array<T>,
    ys: Array<T>,
    g: Array<T>,
    k: int,
)
    requires
        ring::<T>(),
        0 <= k < xs.data.len() == ys.data.len() == g.data.len(),
        ys.data[k] == fneg(xs.data[k]),
        fadd(sigmoid(xs.data[k]), sigmoid(ys.data[k])) == fone::<T>(),
    ensures
        silu_of(xs).data[k] == fmul(xs.data[k], sigmoid(xs.data[k])),
        fsub(silu_of(xs).data[k], silu_of(ys).data[k]) == xs.data[k],
        silu_grad_of(g, xs).data[k] == fmul(
            g.data[k],
            fadd(
                sigmoid(xs.data[k]),
                fmul(silu_of(xs).data[k], fsub(fone::<T>(), sigmoid(xs.data[k]))),
            ),
        ),
        fadd(silu_grad_of(g, xs).data[k], silu_grad_of(g, ys).data[k]) == g.data[k],
{
    let x = xs.data[k];
    lemma_gate(x);
    lemma_slope(x);
    ring_spread(silu_slope(x), silu_slope(fneg(x)), g.data[k]);
    ring_product(g.data[k], fone::<T>(), fone::<T>());
}

/// A gated unit less that of the negative, and the sum of their slopes.
proof fn lemma_gate<T: Float>(x: T)
    requires
        ring::<T>(),
        fadd(sigmoid(x), sigmoid(fneg(x))) == fone::<T>(),
    ensures
        fsub(fmul(x, sigmoid(x)), fmul(fneg(x), sigmoid(fneg(x)))) == x,
        fadd(silu_slope(x), silu_slope(fneg(x))) == fone::<T>(),
{
    let one = fone::<T>();
    let (p, q) = (sigmoid(x), sigmoid(fneg(x)));
    let (a, b) = (fmul(x, p), fmul(fneg(x), q));
    ring_neg(x, q);
    ring_sub(a, b);
    ring_neg(fmul(x, q), fmul(x, q));
    ring_spread(p, q, x);
    ring_product(x, one, one);
    // The slope: p (1 + x (1 - p)).
    lemma_slope(x);
    lemma_slope(fneg(x));
    // 1 - p is q and 1 - q is p.
    ring_add(p, q);
    ring_back(p, q);
    ring_back(q, p);
    assert(fsub(one, p) == q);
    assert(fsub(one, q) == p);
    // x p q and its negative cancel.
    let m = fmul(a, q);
    ring_product(x, p, q);
    ring_product(x, q, p);
    ring_mul(p, q);
    ring_neg(fmul(x, q), p);
    assert(fmul(b, p) == fneg(m));
    crate::identities::ring_swap(p, m, q, fneg(m));
    ring_zero(m);
    ring_zero(one);
}

/// The slope of a gated unit, spread out.
proof fn lemma_slope<T: Float>(x: T)
    requires
        ring::<T>(),
    ensures
        silu_slope(x) == fadd(
            sigmoid(x),
            fmul(fmul(x, sigmoid(x)), fsub(fone::<T>(), sigmoid(x))),
        ),
{
    let p = sigmoid(x);
    let r = fsub(fone::<T>(), p);
    ring_spread(fone::<T>(), fmul(x, r), p);
    ring_product(p, fone::<T>(), p);
    ring_product(p, x, r);
    ring_mul(p, x);
}

/// The feed-forward layer gates: every hidden item is that of the one projection, times
/// its logistic, times that of the other.
pub proof fn law_hidden_items_are_gated<T: Float>(
    x: Array<T>,
    gate: Array<T>,
    up: Array<T>,
    k: int,
)
    requires
        0 <= k < matmul_of(x, ternary_weights(gate)).data.len(),
        matmul_of(x, ternary_weights(up)).data.len() == matmul_of(
            x,
            ternary_weights(gate),
        ).data.len(),
    ensures
        ({
            let g = matmul_of(x, ternary_weights(gate)).data[k];
            let u = matmul_of(x, ternary_weights(up)).data[k];
            gated_of(x, gate, up).data[k] == fmul(
                fmul(g, fdiv(fone::<T>(), fadd(fone::<T>(), fexp(fneg(g))))),
                u,
            )
        }),
{
}

/// A block adds to the stream: what its attention makes of the normalised stream, and then
/// what its feed-forward layer makes of the normalised sum.
pub proof fn law_block_adds_to_stream<T: Float>(x: Array<T>, b: BlockOf<Array<T>>, d: usize)
    ensures
        ({
            let mid = add_of(x, attention_of(rmsnorm_of(x), b.heads, d));
            block_of(x, b, d) == add_of(mid, ffn_of(rmsnorm_of(mid), b.gate, b.up, b.down))
        }),
{
}

/// Blocks run one after the other: the first ones, and then the others on what they give.
pub proof fn law_blocks_run_in_order<T: Float>(
    x: Array<T>,
    first: Seq<BlockOf<Array<T>>>,
    rest: Seq<BlockOf<Array<T>>>,
    d: usize,
    n: nat,
)
    requires
        n <= rest.len(),
    ensures
        blocks_of(x, first + rest, d, first.len() + n) == blocks_of(
            blocks_of(x, first, d, first.len()),
            rest,
            d,
            n,
        ),
        rest.len() > 0 ==> blocks_of(x, rest, d, 1) == block_of(x, rest[0], d),
    decreases n,
{
    if n == 0 {
        lemma_blocks_alone(x, first, rest, d, first.len());
    } else {
        law_blocks_run_in_order(x, first, rest, d, (n - 1) as nat);
        assert((first + rest)[first.len() + n - 1] == rest[n - 1]);
    }
    reveal_with_fuel(blocks_of, 2);
}

/// The first blocks do not depend on the later ones.
proof fn lemma_blocks_alone<T: Float>(
    x: Array<T>,
    first: Seq<BlockOf<Array<T>>>,
    rest: Seq<BlockOf<Array<T>>>,
    d: usize,
    n: nat,
)
    requires
        n <= first.len(),
    ensures
        blocks_of(x, first + rest, d, n) == blocks_of(x, first, d, n),
    decreases n,
{
    if n > 0 {
        lemma_blocks_alone(x, first, rest, d, (n - 1) as nat);
        assert((first + rest)[n - 1] == first[n - 1]);
    }
}

/// Every id is embedded as its own row, whatever stands around it.
pub proof fn law_ids_are_embedded_alone<T: Float>(
    w: Array<T>,
    v: usize,
    h: usize,
    ids: Seq<usize>,
    i: nat,
)
    requires
        grid(w, v, h),
        ids.len() <= usize::MAX,
        ids_below(ids, v),
        i < ids.len(),
    ensures
        embed_of(w, ids).row(i) == w.row(ids[i as int] as nat),
        embed_of(w, ids).dims == seq![ids.len() as usize, h],
{
    let s = ids.len() as usize;
    assert forall|k: nat| k < s implies (#[trigger] picked_rows(w, ids)(k)).len() == h by {
        assert(ids[k as int] < v);
        lemma_row(w, v, h, ids[k as int] as nat);
    }
    lemma_matrix_row(s, h, picked_rows(w, ids), i);
}

/// The logits of a place are the inner products of its normalised and quantised stream
/// with the ternary embedding of every token: the last projection is the embedding itself.
pub proof fn law_logits_compare_with_embeddings<T: Float>(
    m: ModelOf<Array<T>>,
    ids: Seq<usize>,
    d: usize,
    s: usize,
    v: usize,
    h: usize,
    i: nat,
    t: int,
)
    requires
        ({
            let y = restored_acts(
                rmsnorm_of(blocks_of(embed_of(m.embed, ids), m.blocks, d, m.blocks.len())),
            );
            &&& grid(y, s, h)
            &&& grid(ternary_weights(transpose_of(m.embed)), h, v)
        }),
        i < s,
        0 <= t < v,
    ensures
        ({
            let y = restored_acts(
                rmsnorm_of(blocks_of(embed_of(m.embed, ids), m.blocks, d, m.blocks.len())),
            );
            let w = ternary_weights(transpose_of(m.embed));
            logits_of(m, ids, d).row(i)[t] == fsum(
                Seq::new(h as nat, |p: int| fmul(y.row(i)[p], w.row(p as nat)[t])),
            )
        }),
{
    let y = restored_acts(
        rmsnorm_of(blocks_of(embed_of(m.embed, ids), m.blocks, d, m.blocks.len())),
    );
    let w = ternary_weights(transpose_of(m.embed));
    lemma_product_row(y, w, s, h, v, i);
    lemma_row(y, s, h, i);
    crate::exact::lemma_dot_sum(y.row(i), w.col(t as nat), h as nat);
    assert forall|p: int| 0 <= p < h implies #[trigger] w.col(t as nat)[p] == w.row(p as nat)[t] by {
        crate::agreement::lemma_cross(w, h, v, p as nat, t as nat);
    }
    assert(Seq::new(h as nat, |p: int| fmul(y.row(i)[p], w.col(t as nat)[p])) =~= Seq::new(
        h as nat,
        |p: int| fmul(y.row(i)[p], w.row(p as nat)[t]),
    ));
}

/// The weights of a model of `h` heads a block stand in one order: the embedding, and then
/// block after block the queries, keys, values and output of each head, and the three
/// projections of the feed-forward layer.
pub proof fn law_weights_stand_in_order<X>(m: ModelOf<X>, h: nat, j: nat, i: nat)
    requires
        j < m.blocks.len(),
        i < h,
        forall|b: int| 0 <= b < m.blocks.len() ==> (#[trigger] m.blocks[b]).heads.len() == h,
    ensures
        items(m).len() == 1 + m.blocks.len() * (4 * h + 3),
        items(m)[0] == m.embed,
        ({
            let at = (1 + j * (4 * h + 3)) as int;
            let b = m.blocks[j as int];
            &&& items(m)[at + 4 * i] == b.heads[i as int].w_q
            &&& items(m)[at + 4 * i + 1] == b.heads[i as int].w_k
            &&& items(m)[at + 4 * i + 2] == b.heads[i as int].w_v
            &&& items(m)[at + 4 * i + 3] == b.heads[i as int].w_o
            &&& items(m)[at + 4 * h] == b.gate
            &&& items(m)[at + 4 * h + 1] == b.up
            &&& items(m)[at + 4 * h + 2] == b.down
        }),
{
    assert(m.blocks[j as int].heads.len() == h);
    lemma_head_place(m, j, i);
    lemma_ffn_place(m, j);
    lemma_blocks_fill(m.blocks, h, j);
    lemma_blocks_fill(m.blocks, h, m.blocks.len());
}

/// How many weights some blocks of `h` heads have.
proof fn lemma_blocks_fill<X>(bs: Seq<BlockOf<X>>, h: nat, n: nat)
    requires
        n <= bs.len(),
        forall|b: int| 0 <= b < bs.len() ==> (#[trigger] bs[b]).heads.len() == h,
    ensures
        blocks_items(bs, n).len() == n * (4 * h + 3),
    decreases n,
{
    if n == 0 {
        assert(0 * (4 * h + 3) == 0) by (nonlinear_arith);
    } else {
        lemma_blocks_fill(bs, h, (n - 1) as nat);
        assert(bs[n - 1].heads.len() == h);
        lemma_heads_len(bs[n - 1].heads, h);
        assert(n * (4 * h + 3) == (n - 1) * (4 * h + 3) + (4 * h + 3)) by (nonlinear_arith);
    }
}

/// A device that holds the weights of a model gives the logits that the model gives.
pub proof fn law_device_window_matches_model<T: Float>(
    m: Model<T>,
    bs: Seq<DeviceBlock<Tensor<T>>>,
    ids: Seq<usize>,
)
    requires
        holds_model(bs, m),
        forall|j: int| 0 <= j < bs.len() ==> (#[trigger] bs[j]).heads@.len() > 0,
    ensures
        window_out_bit_of::<Tensor<T>>(
            embed_of(m@.embed, ids),
            bs,
            m@.embed,
            head_scale(m.config.head_dim),
        ) == logits_of(m@, ids, m.config.head_dim),
{
    lemma_device_blocks(m, bs, embed_of(m@.embed, ids), bs.len());
}

/// The first blocks of a device give what those of the model give.
proof fn lemma_device_blocks<T: Float>(
    m: Model<T>,
    bs: Seq<DeviceBlock<Tensor<T>>>,
    x: Array<T>,
    n: nat,
)
    requires
        holds_model(bs, m),
        forall|j: int| 0 <= j < bs.len() ==> (#[trigger] bs[j]).heads@.len() > 0,
        n <= bs.len(),
    ensures
        blocks_out_bit_of::<Tensor<T>>(x, bs, head_scale(m.config.head_dim), n) == blocks_of(
            x,
            m@.blocks,
            m.config.head_dim,
            n,
        ),
    decreases n,
{
    if n > 0 {
        let d = m.config.head_dim;
        let j = n - 1;
        lemma_device_blocks(m, bs, x, j as nat);
        let b = bs[j];
        assert(holds_block(b, m.blocks@[j]));
        let (heads, ffn) = (heads_val(b.heads@), ffn_val(b.ffn));
        let y = blocks_of(x, m@.blocks, d, j as nat);
        law_block_matches_tape(y, heads, ffn, d);
        let (w, v) = (as_tape_block(heads, ffn), m@.blocks[j]);
        assert forall|i: int| 0 <= i < w.heads.len() implies #[trigger] w.heads[i] == v.heads[i] by {
            assert(b.heads@[i].w_q@ == m.blocks@[j].heads@[i].w_q@);
        }
        assert(w.heads =~= v.heads);
        assert(w == v);
    }
}

} // verus!
