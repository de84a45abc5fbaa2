//! The backward pass over the recorded steps of a block: what a sweep over its nodes adds
//! to the gradients of its input and of its weights.
use crate::attention::{head_steps, heads_steps};
use crate::autograd::{
    accumulate, back, contributions, entry_ok, grads_ok, nodes_ok, Entry, NodeId, Step,
};
use crate::bitlinear::{restored_acts, ternary_weights};
use crate::block::{attended_steps, block_steps, fed_steps, AttentionHeadVars, BlockWeights};
use crate::device::{
    block_grads_bit_ok, block_mid_bit_of, block_mid_grad_bit_of, block_out_bit_of,
    block_saved_bit_ok, ffn_grads_bit_of, ffn_saved_bit_of, ffn_saved_val, head_grads_bit_of,
    head_out_bit_of, head_saved_bit_of, heads_grad_bit_of, heads_sum_bit_of, saved_val, saved_vals,
    weight_grads_val, weights_only, AttentionHeadGrads, AttentionHeadSaved, BlockGrads, BlockSaved,
    Device, FfnGrads, FfnWeights, HeadWeightGrads, HeadWeights,
};
use crate::ffn::ffn_steps;
use crate::float::{deterministic, fadd, fcount, fdiv, fmul, fone, fzero, Float};
use crate::ops::{
    causal_mask_grad_of, loss_grad_rows, masked_rows, rmsnorm_grad_of, rmsnorm_grad_rows,
    rmsnorm_of, rope_grad_of, rope_grad_rows, silu_grad_of, softmax_grad_of, softmax_grad_rows,
    softmax_of, softmax_rows,
};
use crate::tensor::{
    add_of, columns, filled, lemma_flat_len, lemma_row_end, lemma_volume2, matmul_of, matrix,
    mul_of, product_rows, scale_of, transpose_of, Array, Tensor,
};
use vstd::prelude::*;

verus! {

/// Sums do not depend on the order of their terms, and zero adds nothing.
#[verifier::opaque]
pub open spec fn order_free<T: Float>() -> bool {
    &&& forall|a: T, b: T| #[trigger] fadd(a, b) == fadd(b, a)
    &&& forall|a: T, b: T, c: T| #[trigger] fadd(fadd(a, b), c) == fadd(a, fadd(b, c))
    &&& forall|a: T| #[trigger] fadd(fzero::<T>(), a) == a
}

/// A sound array of these dimensions.
pub open spec fn fit<T>(a: Array<T>, dims: Seq<usize>) -> bool {
    a.wf() && a.dims == dims
}

/// A matrix given by rows of one length is sound.
proof fn lemma_matrix_fit<T>(m: usize, n: usize, g: spec_fn(nat) -> Seq<T>)
    requires
        forall|i: nat| i < m ==> (#[trigger] g(i)).len() == n,
    ensures
        fit(matrix(m, n, g), seq![m, n]),
{
    lemma_flat_len(m as nat, n as nat, g);
    lemma_volume2(seq![m, n]);
}

/// The rows of a sound matrix have as many items as it has columns.
proof fn lemma_rows_fit<T>(a: Array<T>, i: nat)
    requires
        a.wf(),
        a.dims.len() == 2,
        i < a.dims[0],
    ensures
        a.row(i).len() == a.dims[1],
{
    lemma_volume2(a.dims);
    lemma_row_end(i as int, a.dims[0] as int, a.dims[1] as int);
}

/// A product of matrices is sound.
proof fn lemma_matmul_fit<T: Float>(a: Array<T>, b: Array<T>)
    ensures
        fit(matmul_of(a, b), seq![a.dims[0], b.dims[1]]),
{
    lemma_matrix_fit(a.dims[0], b.dims[1], product_rows(a, b));
}

/// A transpose is sound.
proof fn lemma_transpose_fit<T>(a: Array<T>)
    ensures
        fit(transpose_of(a), seq![a.dims[1], a.dims[0]]),
{
    lemma_matrix_fit(a.dims[1], a.dims[0], columns(a));
}

/// A gradient on a row-wise operation is sound.
proof fn lemma_rowwise_fit<T: Float>(g: Array<T>, x: Array<T>)
    requires
        g.wf() && x.wf(),
        x.dims.len() == 2,
        g.dims == x.dims,
    ensures
        fit(softmax_grad_of(g, x), x.dims),
        fit(rmsnorm_grad_of(g, x), x.dims),
        fit(causal_mask_grad_of(g), x.dims),
        fit(rope_grad_of(g), x.dims),
        fit(softmax_of(x), x.dims),
{
    let (m, n) = (x.dims[0], x.dims[1]);
    assert forall|i: nat| i < m implies (#[trigger] softmax_grad_rows(g, x)(i)).len() == n by {
        lemma_rows_fit(x, i);
    }
    assert forall|i: nat| i < m implies (#[trigger] rmsnorm_grad_rows(g, x)(i)).len() == n by {
        lemma_rows_fit(x, i);
    }
    assert forall|i: nat| i < m implies (#[trigger] masked_rows(g, fzero::<T>())(i)).len()
        == n by {
        lemma_rows_fit(g, i);
    }
    assert forall|i: nat| i < m implies (#[trigger] rope_grad_rows(g)(i)).len() == n by {
        lemma_rows_fit(g, i);
    }
    assert forall|i: nat| i < m implies (#[trigger] softmax_rows(x)(i)).len() == n by {
        lemma_rows_fit(x, i);
    }
    lemma_matrix_fit(m, n, softmax_grad_rows(g, x));
    lemma_matrix_fit(m, n, rmsnorm_grad_rows(g, x));
    lemma_matrix_fit(m, n, masked_rows(g, fzero::<T>()));
    lemma_matrix_fit(m, n, rope_grad_rows(g));
    lemma_matrix_fit(m, n, softmax_rows(x));
    assert(x.dims =~= seq![m, n]);
}

/// What is passed back goes to earlier nodes and has their shapes.
pub open spec fn shares_fit<T: Float>(t: Seq<Entry<T>>, i: int, c: Seq<(NodeId, Array<T>)>) -> bool {
    forall|k: int|
        0 <= k < c.len() ==> (#[trigger] c[k]).0 < i && fit(c[k].1, t[c[k].0 as int].value.dims)
}

/// What a node passes back for a gradient of its shape fits its inputs.
pub proof fn lemma_shares_fit<T: Float>(t: Seq<Entry<T>>, i: int, g: Array<T>)
    requires
        nodes_ok(t),
        0 <= i < t.len(),
        fit(g, t[i].value.dims),
    ensures
        shares_fit(t, i, contributions(t, i, g)),
{
    assert(entry_ok(t, i));
    let c = contributions(t, i, g);
    match t[i].step {
        Step::MatMul(a, b) => {
            let (va, vb) = (t[a as int].value, t[b as int].value);
            lemma_transpose_fit(va);
            lemma_transpose_fit(vb);
            lemma_matmul_fit(g, transpose_of(vb));
            lemma_matmul_fit(transpose_of(va), g);
            assert(va.dims =~= seq![va.dims[0], va.dims[1]]);
            assert(vb.dims =~= seq![vb.dims[0], vb.dims[1]]);
        },
        Step::Transpose(a) => {
            lemma_transpose_fit(g);
            let va = t[a as int].value;
            assert(va.dims =~= seq![va.dims[0], va.dims[1]]);
        },
        Step::Softmax(a) => {
            lemma_rowwise_fit(g, t[i].value);
        },
        Step::RmsNorm(a) => {
            assert(entry_ok(t, a as int));
            lemma_rowwise_fit(g, t[a as int].value);
        },
        Step::CausalMask(a) => {
            lemma_rowwise_fit(g, g);
        },
        Step::Rope(a) => {
            lemma_rowwise_fit(g, g);
        },
        Step::Mean(a) => {
            assert(entry_ok(t, a as int));
        },
        Step::Embed(a, ids) => {
            assert(entry_ok(t, a as int));
        },
        Step::CrossEntropy(a, targets) => {
            assert(entry_ok(t, a as int));
            let x = t[a as int].value;
            lemma_rowwise_fit(x, x);
            let probs = softmax_of(x);
            let f = fmul(
                g.data[0],
                fdiv(
                    fone::<T>(),
                    fcount::<T>(probs.dims[0]),
                ),
            );
            assert forall|r: nat| r < probs.dims[0] implies (#[trigger] loss_grad_rows(
                probs,
                targets,
                f,
            )(r)).len() == probs.dims[1] by {
                lemma_rows_fit(probs, r);
            }
            lemma_matrix_fit(probs.dims[0], probs.dims[1], loss_grad_rows(probs, targets, f));
            assert(x.dims =~= seq![probs.dims[0], probs.dims[1]]);
        },
        _ => {},
    }
}

/// Adding what fits keeps the gradients sound and leaves the others alone.
proof fn lemma_accumulate_ok<T: Float>(
    t: Seq<Entry<T>>,
    gs: Seq<Array<T>>,
    i: int,
    c: Seq<(NodeId, Array<T>)>,
)
    requires
        grads_ok(t, gs),
        0 <= i < t.len(),
        shares_fit(t, i, c),
    ensures
        grads_ok(t, accumulate(gs, c)),
        forall|j: int| i <= j < t.len() ==> #[trigger] accumulate(gs, c)[j] == gs[j],
    decreases c.len(),
{
    if c.len() > 0 {
        let d = c.drop_last();
        assert forall|k: int| 0 <= k < d.len() implies (#[trigger] d[k]).0 < i && fit(
            d[k].1,
            t[d[k].0 as int].value.dims,
        ) by {
            assert(d[k] == c[k]);
        }
        lemma_accumulate_ok(t, gs, i, d);
        assert(c[c.len() - 1] == c.last());
    }
}

/// The gradients after nodes `hi - 1` down to `lo` have passed theirs back.
#[verifier::opaque]
pub open spec fn sweep<T: Float>(t: Seq<Entry<T>>, gs: Seq<Array<T>>, hi: int, lo: int) -> Seq<Array<T>>
    decreases hi - lo,
{
    if hi <= lo {
        gs
    } else {
        sweep(t, accumulate(gs, contributions(t, hi - 1, gs[hi - 1])), hi - 1, lo)
    }
}

/// A backward pass is a sweep of its last part and then of the rest.
pub proof fn lemma_back_sweep<T: Float>(t: Seq<Entry<T>>, gs: Seq<Array<T>>, hi: nat, lo: nat)
    requires
        lo <= hi,
    ensures
        back(t, gs, hi) == back(t, sweep(t, gs, hi as int, lo as int), lo),
    decreases hi - lo,
{
    reveal_with_fuel(sweep, 2);
    if lo < hi {
        lemma_back_sweep(
            t,
            accumulate(gs, contributions(t, hi - 1, gs[hi - 1])),
            (hi - 1) as nat,
            lo,
        );
    }
}

/// A sweep is a sweep of its last part and then of the rest.
pub proof fn lemma_sweep_split<T: Float>(
    t: Seq<Entry<T>>,
    gs: Seq<Array<T>>,
    hi: int,
    mid: int,
    lo: int,
)
    requires
        lo <= mid <= hi,
    ensures
        sweep(t, gs, hi, lo) == sweep(t, sweep(t, gs, hi, mid), mid, lo),
    decreases hi - mid,
{
    reveal_with_fuel(sweep, 2);
    if mid < hi {
        lemma_sweep_split(
            t,
            accumulate(gs, contributions(t, hi - 1, gs[hi - 1])),
            hi - 1,
            mid,
            lo,
        );
    }
}

/// A gradient with something added at one node.
pub open spec fn put<T: Float>(gs: Seq<Array<T>>, i: int, a: Array<T>) -> Seq<Array<T>> {
    gs.update(i, add_of(gs[i], a))
}

/// The sweep of one node.
pub proof fn lemma_sweep_one<T: Float>(t: Seq<Entry<T>>, gs: Seq<Array<T>>, k: int)
    requires
        nodes_ok(t),
        grads_ok(t, gs),
        0 <= k < t.len(),
    ensures
        grads_ok(t, sweep(t, gs, k + 1, k)),
        sweep(t, gs, k + 1, k) == accumulate(gs, contributions(t, k, gs[k])),
        contributions(t, k, gs[k]).len() == 1 ==> sweep(t, gs, k + 1, k) == put(
            gs,
            contributions(t, k, gs[k])[0].0 as int,
            contributions(t, k, gs[k])[0].1,
        ),
        contributions(t, k, gs[k]).len() == 2 ==> sweep(t, gs, k + 1, k) == put(
            put(gs, contributions(t, k, gs[k])[0].0 as int, contributions(t, k, gs[k])[0].1),
            contributions(t, k, gs[k])[1].0 as int,
            contributions(t, k, gs[k])[1].1,
        ),
{
    let c = contributions(t, k, gs[k]);
    reveal_with_fuel(sweep, 2);
    lemma_shares_fit(t, k, gs[k]);
    lemma_accumulate_ok(t, gs, k, c);
    reveal_with_fuel(accumulate, 3);
    if c.len() == 2 {
        assert(c.drop_last() =~= seq![c[0]]);
    }
}

/// Adding to a gradient of zeros gives what was added.
proof fn lemma_from_zero<T: Float>(z: Array<T>, a: Array<T>)
    requires
        order_free::<T>(),
        zeros(z),
        fit(a, z.dims),
    ensures
        add_of(z, a) == a,
{
    reveal(order_free);
    reveal(zeros);
    assert(add_of(z, a).data =~= a.data);
}

/// Sums of arrays do not depend on the order of their terms.
pub proof fn lemma_sum_order<T: Float>(a: Array<T>, b: Array<T>, c: Array<T>)
    requires
        order_free::<T>(),
        a.wf() && b.wf() && c.wf(),
        a.dims == b.dims && b.dims == c.dims,
    ensures
        add_of(a, b) == add_of(b, a),
        add_of(add_of(a, b), c) == add_of(a, add_of(b, c)),
{
    reveal(order_free);
    assert(add_of(a, b).data =~= add_of(b, a).data);
    assert(add_of(add_of(a, b), c).data =~= add_of(a, add_of(b, c)).data);
}

/// An array of zeros.
#[verifier::opaque]
pub open spec fn zeros<T: Float>(a: Array<T>) -> bool {
    a == filled(a.dims, fzero::<T>())
}

/// Node `i` has a gradient of zeros.
pub open spec fn untouched<T: Float>(gs: Seq<Array<T>>, i: int) -> bool {
    zeros(gs[i])
}

/// The sweep over a projection: the gradient of its output goes to its input and
/// straight through the quantiser to its weights.
proof fn lemma_linear_sweep<T: Float>(
    t: Seq<Entry<T>>,
    gs: Seq<Array<T>>,
    b: int,
    x: NodeId,
    w: NodeId,
)
    requires
        order_free::<T>(),
        deterministic::<T>(),
        nodes_ok(t),
        grads_ok(t, gs),
        0 <= b,
        b + 2 <= t.len() <= usize::MAX,
        t[b].step == Step::<T>::QuantiseWeights(w),
        t[b + 1].step == Step::<T>::MatMul(x, b as usize),
        x != w,
        x < b,
        w < b,
        untouched(gs, b),
    ensures
        ({
            let r = sweep(t, gs, b + 2, b);
            let g = gs[b + 1];
            &&& grads_ok(t, r)
            &&& r[x as int] == add_of(
                gs[x as int],
                matmul_of(g, transpose_of(ternary_weights(t[w as int].value))),
            )
            &&& r[w as int] == add_of(
                gs[w as int],
                matmul_of(transpose_of(t[x as int].value), g),
            )
            &&& forall|j: int| 0 <= j < b && j != x && j != w ==> #[trigger] r[j] == gs[j]
        }),
{
    let g = gs[b + 1];
    assert(entry_ok(t, b));
    assert(entry_ok(t, b + 1));
    lemma_sweep_split(t, gs, b + 2, b + 1, b);
    lemma_sweep_one(t, gs, b + 1);
    lemma_shares_fit(t, b + 1, g);
    let g1 = sweep(t, gs, b + 2, b + 1);
    let right = matmul_of(transpose_of(t[x as int].value), g);
    assert(contributions(t, b + 1, g)[1] == (b as usize, right));
    lemma_from_zero(gs[b], right);
    assert(g1[b] == right);
    lemma_sweep_one(t, g1, b);
}

/// The nodes from `b` on were made by these steps.
pub open spec fn made_by<T>(t: Seq<Entry<T>>, b: int, steps: Seq<Step<T>>) -> bool {
    &&& 0 <= b
    &&& b + steps.len() <= t.len()
    &&& forall|k: int| 0 <= k < steps.len() ==> (#[trigger] t[b + k]).step == steps[k]
}

/// The sweep of a node that passes something back to one node that was untouched.
pub proof fn lemma_pass_to_fresh<T: Float>(t: Seq<Entry<T>>, gs: Seq<Array<T>>, k: int, a: NodeId)
    requires
        order_free::<T>(),
        nodes_ok(t),
        grads_ok(t, gs),
        0 <= k < t.len(),
        contributions(t, k, gs[k]).len() == 1,
        contributions(t, k, gs[k])[0].0 == a,
        untouched(gs, a as int),
    ensures
        ({
            let r = sweep(t, gs, k + 1, k);
            &&& grads_ok(t, r)
            &&& r[a as int] == contributions(t, k, gs[k])[0].1
            &&& forall|j: int| 0 <= j < k && j != a ==> #[trigger] r[j] == gs[j]
        }),
{
    lemma_sweep_one(t, gs, k);
    lemma_shares_fit(t, k, gs[k]);
    let c = contributions(t, k, gs[k]);
    assert(c[0].0 < k);
    lemma_from_zero(gs[a as int], c[0].1);
}

/// The sweep of a node that passes something back to two nodes that were untouched.
proof fn lemma_pass_to_two<T: Float>(
    t: Seq<Entry<T>>,
    gs: Seq<Array<T>>,
    k: int,
    a: NodeId,
    b: NodeId,
)
    requires
        order_free::<T>(),
        nodes_ok(t),
        grads_ok(t, gs),
        0 <= k < t.len(),
        contributions(t, k, gs[k]).len() == 2,
        contributions(t, k, gs[k])[0].0 == a,
        contributions(t, k, gs[k])[1].0 == b,
        a != b,
        untouched(gs, a as int),
        untouched(gs, b as int),
    ensures
        ({
            let r = sweep(t, gs, k + 1, k);
            &&& grads_ok(t, r)
            &&& r[a as int] == contributions(t, k, gs[k])[0].1
            &&& r[b as int] == contributions(t, k, gs[k])[1].1
            &&& forall|j: int| 0 <= j < k && j != a && j != b ==> #[trigger] r[j] == gs[j]
        }),
{
    lemma_sweep_one(t, gs, k);
    lemma_shares_fit(t, k, gs[k]);
    let c = contributions(t, k, gs[k]);
    assert(c[0].0 < k);
    assert(c[1].0 < k);
    lemma_from_zero(gs[a as int], c[0].1);
    lemma_from_zero(gs[b as int], c[1].1);
}

/// The nodes of a feed-forward layer.
pub open spec fn ffn_made<T>(t: Seq<Entry<T>>, b: int, x: NodeId, gate: NodeId, up: NodeId, down: NodeId) -> bool {
    &&& 0 <= b
    &&& b + 10 <= t.len() <= usize::MAX
    &&& t[b].step == Step::<T>::QuantiseActs(x)
    &&& t[b + 1].step == Step::<T>::QuantiseWeights(gate)
    &&& t[b + 2].step == Step::<T>::MatMul(b as usize, (b + 1) as usize)
    &&& t[b + 3].step == Step::<T>::Silu((b + 2) as usize)
    &&& t[b + 4].step == Step::<T>::QuantiseWeights(up)
    &&& t[b + 5].step == Step::<T>::MatMul(b as usize, (b + 4) as usize)
    &&& t[b + 6].step == Step::<T>::Mul((b + 3) as usize, (b + 5) as usize)
    &&& t[b + 7].step == Step::<T>::QuantiseActs((b + 6) as usize)
    &&& t[b + 8].step == Step::<T>::QuantiseWeights(down)
    &&& t[b + 9].step == Step::<T>::MatMul((b + 7) as usize, (b + 8) as usize)
}

/// The recorded steps of a feed-forward layer are its nodes.
proof fn lemma_ffn_made<T>(
    t: Seq<Entry<T>>,
    b: int,
    x: NodeId,
    gate: NodeId,
    up: NodeId,
    down: NodeId,
)
    requires
        made_by(t, b, ffn_steps(b, x, gate, up, down)),
        t.len() <= usize::MAX,
    ensures
        ffn_made(t, b, x, gate, up, down),
{
    let s = ffn_steps::<T>(b, x, gate, up, down);
    assert(s.len() == 10);
    assert(t[b + 0].step == s[0]);
    assert(t[b + 1].step == s[1]);
    assert(t[b + 2].step == s[2]);
    assert(t[b + 3].step == s[3]);
    assert(t[b + 4].step == s[4]);
    assert(t[b + 5].step == s[5]);
    assert(t[b + 6].step == s[6]);
    assert(t[b + 7].step == s[7]);
    assert(t[b + 8].step == s[8]);
    assert(t[b + 9].step == s[9]);
}

/// The nodes from `lo` up to `hi` have gradients of zeros.
pub open spec fn all_untouched<T: Float>(gs: Seq<Array<T>>, lo: int, hi: int) -> bool {
    forall|j: int| lo <= j < hi ==> #[trigger] untouched(gs, j)
}

/// The weights of a feed-forward layer on a tape.
pub open spec fn ffn_weights<T>(t: Seq<Entry<T>>, gate: NodeId, up: NodeId, down: NodeId) -> FfnWeights<
    Array<T>,
> {
    FfnWeights {
        w_gate: t[gate as int].value,
        w_up: t[up as int].value,
        w_down: t[down as int].value,
    }
}

/// The gradients of a feed-forward layer, from the values on a tape.
pub open spec fn ffn_grads_at<T: Float>(
    t: Seq<Entry<T>>,
    x: NodeId,
    gate: NodeId,
    up: NodeId,
    down: NodeId,
    g: Array<T>,
) -> FfnGrads<Array<T>> {
    let w = ffn_weights(t, gate, up, down);
    let v = t[x as int].value;
    ffn_grads_bit_of::<Tensor<T>>(g, v, ffn_saved_bit_of::<Tensor<T>>(v, w), w)
}

/// Below node `k`, only the gradient of node `a` has changed.
pub open spec fn only_at<T>(r: Seq<Array<T>>, gs: Seq<Array<T>>, k: int, a: int) -> bool {
    forall|j: int| 0 <= j < k && j != a ==> #[trigger] r[j] == gs[j]
}

/// Below node `k`, only the gradients of nodes `a` and `b` have changed.
pub open spec fn only_at_two<T>(r: Seq<Array<T>>, gs: Seq<Array<T>>, k: int, a: int, b: int) -> bool {
    forall|j: int| 0 <= j < k && j != a && j != b ==> #[trigger] r[j] == gs[j]
}

/// A tape and gradients that a sweep can be made over.
#[verifier::opaque]
pub open spec fn ready<T: Float>(t: Seq<Entry<T>>, gs: Seq<Array<T>>) -> bool {
    &&& order_free::<T>()
    &&& deterministic::<T>()
    &&& nodes_ok(t)
    &&& grads_ok(t, gs)
    &&& t.len() <= usize::MAX
}

/// A quantiser passes its gradient straight through.
pub proof fn lemma_acts_pass<T: Float>(t: Seq<Entry<T>>, gs: Seq<Array<T>>, k: int, a: NodeId)
    requires
        ready(t, gs),
        0 <= k < t.len(),
        t[k].step == Step::<T>::QuantiseActs(a),
        untouched(gs, a as int),
    ensures
        ready(t, sweep(t, gs, k + 1, k)),
        sweep(t, gs, k + 1, k)[a as int] == gs[k],
        only_at(sweep(t, gs, k + 1, k), gs, k, a as int),
{
    reveal(ready);
    assert(entry_ok(t, k));
    lemma_pass_to_fresh(t, gs, k, a);
}

/// What a gated unit passes back.
pub proof fn lemma_silu_pass<T: Float>(t: Seq<Entry<T>>, gs: Seq<Array<T>>, k: int, a: NodeId)
    requires
        ready(t, gs),
        0 <= k < t.len(),
        t[k].step == Step::<T>::Silu(a),
        untouched(gs, a as int),
    ensures
        ready(t, sweep(t, gs, k + 1, k)),
        sweep(t, gs, k + 1, k)[a as int] == silu_grad_of(gs[k], t[a as int].value),
        only_at(sweep(t, gs, k + 1, k), gs, k, a as int),
{
    reveal(ready);
    assert(entry_ok(t, k));
    lemma_pass_to_fresh(t, gs, k, a);
}

/// What a softmax passes back.
pub proof fn lemma_softmax_pass<T: Float>(t: Seq<Entry<T>>, gs: Seq<Array<T>>, k: int, a: NodeId)
    requires
        ready(t, gs),
        0 <= k < t.len(),
        t[k].step == Step::<T>::Softmax(a),
        untouched(gs, a as int),
    ensures
        ready(t, sweep(t, gs, k + 1, k)),
        sweep(t, gs, k + 1, k)[a as int] == softmax_grad_of(gs[k], t[k].value),
        only_at(sweep(t, gs, k + 1, k), gs, k, a as int),
{
    reveal(ready);
    assert(entry_ok(t, k));
    lemma_pass_to_fresh(t, gs, k, a);
}

/// What a causal mask passes back.
pub proof fn lemma_mask_pass<T: Float>(t: Seq<Entry<T>>, gs: Seq<Array<T>>, k: int, a: NodeId)
    requires
        ready(t, gs),
        0 <= k < t.len(),
        t[k].step == Step::<T>::CausalMask(a),
        untouched(gs, a as int),
    ensures
        ready(t, sweep(t, gs, k + 1, k)),
        sweep(t, gs, k + 1, k)[a as int] == causal_mask_grad_of(gs[k]),
        only_at(sweep(t, gs, k + 1, k), gs, k, a as int),
{
    reveal(ready);
    assert(entry_ok(t, k));
    lemma_pass_to_fresh(t, gs, k, a);
}

/// What a rotation passes back.
pub proof fn lemma_rope_pass<T: Float>(t: Seq<Entry<T>>, gs: Seq<Array<T>>, k: int, a: NodeId)
    requires
        ready(t, gs),
        0 <= k < t.len(),
        t[k].step == Step::<T>::Rope(a),
        untouched(gs, a as int),
    ensures
        ready(t, sweep(t, gs, k + 1, k)),
        sweep(t, gs, k + 1, k)[a as int] == rope_grad_of(gs[k]),
        only_at(sweep(t, gs, k + 1, k), gs, k, a as int),
{
    reveal(ready);
    assert(entry_ok(t, k));
    lemma_pass_to_fresh(t, gs, k, a);
}

/// What a transpose passes back.
pub proof fn lemma_transpose_pass<T: Float>(t: Seq<Entry<T>>, gs: Seq<Array<T>>, k: int, a: NodeId)
    requires
        ready(t, gs),
        0 <= k < t.len(),
        t[k].step == Step::<T>::Transpose(a),
        untouched(gs, a as int),
    ensures
        ready(t, sweep(t, gs, k + 1, k)),
        sweep(t, gs, k + 1, k)[a as int] == transpose_of(gs[k]),
        only_at(sweep(t, gs, k + 1, k), gs, k, a as int),
{
    reveal(ready);
    assert(entry_ok(t, k));
    lemma_pass_to_fresh(t, gs, k, a);
}

/// What a scaling passes back.
pub proof fn lemma_scale_pass<T: Float>(t: Seq<Entry<T>>, gs: Seq<Array<T>>, k: int, a: NodeId, s: T)
    requires
        ready(t, gs),
        0 <= k < t.len(),
        t[k].step == Step::<T>::MulScalar(a, s),
        untouched(gs, a as int),
    ensures
        ready(t, sweep(t, gs, k + 1, k)),
        sweep(t, gs, k + 1, k)[a as int] == scale_of(gs[k], s),
        only_at(sweep(t, gs, k + 1, k), gs, k, a as int),
{
    reveal(ready);
    assert(entry_ok(t, k));
    lemma_pass_to_fresh(t, gs, k, a);
}

/// What a product of items passes back.
pub proof fn lemma_mul_pass<T: Float>(
    t: Seq<Entry<T>>,
    gs: Seq<Array<T>>,
    k: int,
    a: NodeId,
    b: NodeId,
)
    requires
        ready(t, gs),
        0 <= k < t.len(),
        t[k].step == Step::<T>::Mul(a, b),
        a != b,
        untouched(gs, a as int),
        untouched(gs, b as int),
    ensures
        ready(t, sweep(t, gs, k + 1, k)),
        sweep(t, gs, k + 1, k)[a as int] == mul_of(gs[k], t[b as int].value),
        sweep(t, gs, k + 1, k)[b as int] == mul_of(gs[k], t[a as int].value),
        only_at_two(sweep(t, gs, k + 1, k), gs, k, a as int, b as int),
{
    reveal(ready);
    assert(entry_ok(t, k));
    lemma_pass_to_two(t, gs, k, a, b);
}

/// What a matrix product passes back.
pub proof fn lemma_matmul_pass<T: Float>(
    t: Seq<Entry<T>>,
    gs: Seq<Array<T>>,
    k: int,
    a: NodeId,
    b: NodeId,
)
    requires
        ready(t, gs),
        0 <= k < t.len(),
        t[k].step == Step::<T>::MatMul(a, b),
        a != b,
        untouched(gs, a as int),
        untouched(gs, b as int),
    ensures
        ready(t, sweep(t, gs, k + 1, k)),
        sweep(t, gs, k + 1, k)[a as int] == matmul_of(gs[k], transpose_of(t[b as int].value)),
        sweep(t, gs, k + 1, k)[b as int] == matmul_of(transpose_of(t[a as int].value), gs[k]),
        only_at_two(sweep(t, gs, k + 1, k), gs, k, a as int, b as int),
{
    reveal(ready);
    assert(entry_ok(t, k));
    lemma_pass_to_two(t, gs, k, a, b);
}

/// What a matrix product passes back where its second factor is fresh and the first has
/// a gradient already.
pub proof fn lemma_product_add<T: Float>(
    t: Seq<Entry<T>>,
    gs: Seq<Array<T>>,
    k: int,
    a: NodeId,
    w: NodeId,
)
    requires
        ready(t, gs),
        0 <= k < t.len(),
        t[k].step == Step::<T>::MatMul(a, w),
        a != w,
        untouched(gs, w as int),
    ensures
        ready(t, sweep(t, gs, k + 1, k)),
        fit(matmul_of(gs[k], transpose_of(t[w as int].value)), t[a as int].value.dims),
        sweep(t, gs, k + 1, k)[a as int] == add_of(
            gs[a as int],
            matmul_of(gs[k], transpose_of(t[w as int].value)),
        ),
        sweep(t, gs, k + 1, k)[w as int] == matmul_of(transpose_of(t[a as int].value), gs[k]),
        only_at_two(sweep(t, gs, k + 1, k), gs, k, a as int, w as int),
{
    reveal(ready);
    assert(entry_ok(t, k));
    lemma_sweep_one(t, gs, k);
    lemma_shares_fit(t, k, gs[k]);
    let c = contributions(t, k, gs[k]);
    assert(c[0].0 == a && c[0].0 < k);
    assert(c[1].0 == w && c[1].0 < k);
    lemma_from_zero(gs[w as int], c[1].1);
}

/// What a projection passes back to its input.
pub open spec fn to_input<T: Float>(g: Array<T>, w: Array<T>) -> Array<T> {
    matmul_of(g, transpose_of(ternary_weights(w)))
}

/// What a projection passes back to its weights.
pub open spec fn to_weights<T: Float>(x: Array<T>, g: Array<T>) -> Array<T> {
    matmul_of(transpose_of(x), g)
}

/// What a projection passes back.
proof fn lemma_linear_pass<T: Float>(
    t: Seq<Entry<T>>,
    gs: Seq<Array<T>>,
    b: int,
    x: NodeId,
    w: NodeId,
)
    requires
        ready(t, gs),
        0 <= b,
        b + 2 <= t.len() <= usize::MAX,
        t[b].step == Step::<T>::QuantiseWeights(w),
        t[b + 1].step == Step::<T>::MatMul(x, b as usize),
        x != w,
        x < b,
        w < b,
        untouched(gs, b),
    ensures
        ready(t, sweep(t, gs, b + 2, b)),
        fit(to_input(gs[b + 1], t[w as int].value), t[x as int].value.dims),
        sweep(t, gs, b + 2, b)[x as int] == add_of(
            gs[x as int],
            to_input(gs[b + 1], t[w as int].value),
        ),
        untouched(gs, x as int) ==> sweep(t, gs, b + 2, b)[x as int] == to_input(
            gs[b + 1],
            t[w as int].value,
        ),
        sweep(t, gs, b + 2, b)[w as int] == add_of(
            gs[w as int],
            to_weights(t[x as int].value, gs[b + 1]),
        ),
        only_at_two(sweep(t, gs, b + 2, b), gs, b, x as int, w as int),
{
    reveal(ready);
    lemma_linear_sweep(t, gs, b, x, w);
    assert(entry_ok(t, b));
    assert(entry_ok(t, b + 1));
    let g = gs[b + 1];
    let left = to_input(g, t[w as int].value);
    lemma_shares_fit(t, b + 1, g);
    assert(contributions(t, b + 1, g)[0] == (x, left));
    if untouched(gs, x as int) {
        lemma_from_zero(gs[x as int], left);
    }
}

/// A quantiser adds its gradient to that of its input.
proof fn lemma_acts_add<T: Float>(t: Seq<Entry<T>>, gs: Seq<Array<T>>, k: int, a: NodeId)
    requires
        ready(t, gs),
        0 <= k < t.len(),
        t[k].step == Step::<T>::QuantiseActs(a),
    ensures
        ready(t, sweep(t, gs, k + 1, k)),
        sweep(t, gs, k + 1, k)[a as int] == add_of(gs[a as int], gs[k]),
        only_at(sweep(t, gs, k + 1, k), gs, k, a as int),
        a < k,
{
    reveal(ready);
    assert(entry_ok(t, k));
    lemma_sweep_one(t, gs, k);
}

/// A quantiser keeps the shape of its input.
proof fn lemma_acts_dims<T: Float>(t: Seq<Entry<T>>, gs: Seq<Array<T>>, k: int, a: NodeId)
    requires
        ready(t, gs),
        0 <= k < t.len(),
        t[k].step == Step::<T>::QuantiseActs(a),
    ensures
        t[k].value.dims == t[a as int].value.dims,
{
    reveal(ready);
    assert(entry_ok(t, k));
}

/// The order of two terms of the sum that a node's gradient is.
pub proof fn lemma_ready_sum<T: Float>(
    t: Seq<Entry<T>>,
    gs: Seq<Array<T>>,
    a: Array<T>,
    b: Array<T>,
    dims: Seq<usize>,
)
    requires
        ready(t, gs),
        fit(a, dims),
        fit(b, dims),
    ensures
        add_of(a, b) == add_of(b, a),
        fit(add_of(a, b), dims),
{
    reveal(ready);
    lemma_sum_order(a, b, b);
}

/// The sweep over the last part of a feed-forward layer, down to its gated product.
proof fn lemma_ffn_lower<T: Float>(t: Seq<Entry<T>>, gs: Seq<Array<T>>, b: int, down: NodeId)
    requires
        ready(t, gs),
        0 <= b,
        b + 10 <= t.len() <= usize::MAX,
        t[b + 6].step == Step::<T>::Mul((b + 3) as usize, (b + 5) as usize),
        t[b + 7].step == Step::<T>::QuantiseActs((b + 6) as usize),
        t[b + 8].step == Step::<T>::QuantiseWeights(down),
        t[b + 9].step == Step::<T>::MatMul((b + 7) as usize, (b + 8) as usize),
        down < b,
        untouched(gs, b + 3) && untouched(gs, b + 5) && untouched(gs, b + 6),
        untouched(gs, b + 7) && untouched(gs, b + 8),
    ensures
        ({
            let r = sweep(t, gs, b + 10, b + 6);
            let h = to_input(gs[b + 9], t[down as int].value);
            &&& ready(t, r)
            &&& r[b + 3] == mul_of(h, t[b + 5].value)
            &&& r[b + 5] == mul_of(h, t[b + 3].value)
            &&& r[down as int] == add_of(
                gs[down as int],
                to_weights(t[b + 7].value, gs[b + 9]),
            )
            &&& forall|j: int|
                0 <= j < b + 6 && j != b + 3 && j != b + 5 && j != down ==> #[trigger] r[j]
                    == gs[j]
        }),
{
    lemma_linear_pass(t, gs, b + 8, (b + 7) as usize, down);
    let g1 = sweep(t, gs, b + 10, b + 8);
    assert(g1[b + 6] == gs[b + 6]);
    lemma_acts_pass(t, g1, b + 7, (b + 6) as usize);
    let g2 = sweep(t, g1, b + 8, b + 7);
    assert(g2[b + 3] == g1[b + 3] && g1[b + 3] == gs[b + 3]);
    assert(g2[b + 5] == g1[b + 5] && g1[b + 5] == gs[b + 5]);
    lemma_mul_pass(t, g2, b + 6, (b + 3) as usize, (b + 5) as usize);
    let g3 = sweep(t, g2, b + 7, b + 6);
    lemma_sweep_split(t, gs, b + 10, b + 8, b + 6);
    lemma_sweep_split(t, g1, b + 8, b + 7, b + 6);
    assert forall|j: int| 0 <= j < b + 6 && j != b + 3 && j != b + 5 && j != down implies
        #[trigger] g3[j] == gs[j] by {
        assert(g2[j] == g1[j]);
        assert(g1[j] == gs[j]);
    }
    assert(g3[down as int] == g2[down as int] && g2[down as int] == g1[down as int]);
}

/// The sweep over the first part of a feed-forward layer, from its gated product on.
proof fn lemma_ffn_upper<T: Float>(
    t: Seq<Entry<T>>,
    gs: Seq<Array<T>>,
    b: int,
    x: NodeId,
    gate: NodeId,
    up: NodeId,
)
    requires
        ready(t, gs),
        0 <= b,
        b + 6 <= t.len() <= usize::MAX,
        t[b].step == Step::<T>::QuantiseActs(x),
        t[b + 1].step == Step::<T>::QuantiseWeights(gate),
        t[b + 2].step == Step::<T>::MatMul(b as usize, (b + 1) as usize),
        t[b + 3].step == Step::<T>::Silu((b + 2) as usize),
        t[b + 4].step == Step::<T>::QuantiseWeights(up),
        t[b + 5].step == Step::<T>::MatMul(b as usize, (b + 4) as usize),
        x < b && gate < b && up < b,
        x != gate && x != up && gate != up,
        untouched(gs, b) && untouched(gs, b + 1) && untouched(gs, b + 2) && untouched(gs, b + 4),
    ensures
        ({
            let r = sweep(t, gs, b + 6, b);
            let gg = silu_grad_of(gs[b + 3], t[b + 2].value);
            &&& ready(t, r)
            &&& fit(
                add_of(
                    to_input(gg, t[gate as int].value),
                    to_input(gs[b + 5], t[up as int].value),
                ),
                t[x as int].value.dims,
            )
            &&& r[x as int] == add_of(
                gs[x as int],
                add_of(
                    to_input(gg, t[gate as int].value),
                    to_input(gs[b + 5], t[up as int].value),
                ),
            )
            &&& r[gate as int] == add_of(gs[gate as int], to_weights(t[b].value, gg))
            &&& r[up as int] == add_of(gs[up as int], to_weights(t[b].value, gs[b + 5]))
            &&& forall|j: int|
                0 <= j < b && j != x && j != gate && j != up ==> #[trigger] r[j] == gs[j]
        }),
{
    lemma_linear_pass(t, gs, b + 4, b as usize, up);
    let g1 = sweep(t, gs, b + 6, b + 4);
    assert(g1[b + 3] == gs[b + 3] && g1[b + 2] == gs[b + 2] && g1[b + 1] == gs[b + 1]);
    lemma_silu_pass(t, g1, b + 3, (b + 2) as usize);
    let g2 = sweep(t, g1, b + 4, b + 3);
    assert(g2[b + 1] == g1[b + 1] && g2[b] == g1[b]);
    lemma_linear_pass(t, g2, b + 1, b as usize, gate);
    let g3 = sweep(t, g2, b + 3, b + 1);
    let lu = to_input(gs[b + 5], t[up as int].value);
    let lg = to_input(g2[b + 2], t[gate as int].value);
    lemma_ready_sum(t, gs, lg, lu, t[b].value.dims);
    assert(g3[b] == add_of(lg, lu));
    lemma_acts_dims(t, gs, b, x);
    lemma_acts_add(t, g3, b, x);
    let g4 = sweep(t, g3, b + 1, b);
    lemma_sweep_split(t, gs, b + 6, b + 4, b);
    lemma_sweep_split(t, g1, b + 4, b + 3, b);
    lemma_sweep_split(t, g2, b + 3, b + 1, b);
    assert forall|j: int| 0 <= j < b && j != gate && j != up implies #[trigger] g3[j]
        == gs[j] by {
        assert(g2[j] == g1[j]);
        assert(g1[j] == gs[j]);
    }
    assert(g3[up as int] == g2[up as int] && g2[up as int] == g1[up as int]);
    assert(g2[gate as int] == g1[gate as int] && g1[gate as int] == gs[gate as int]);
}

/// The values on the nodes of a feed-forward layer.
proof fn lemma_ffn_values<T: Float>(
    t: Seq<Entry<T>>,
    gs: Seq<Array<T>>,
    b: int,
    x: NodeId,
    gate: NodeId,
    up: NodeId,
    down: NodeId,
)
    requires
        ready(t, gs),
        ffn_made(t, b, x, gate, up, down),
    ensures
        ({
            let v = t[x as int].value;
            let sv = ffn_saved_bit_of::<Tensor<T>>(v, ffn_weights(t, gate, up, down));
            &&& t[b].value == restored_acts(v)
            &&& t[b + 2].value == sv.gate_pre
            &&& t[b + 3].value == sv.gate
            &&& t[b + 5].value == sv.up
            &&& t[b + 6].value == sv.h
            &&& t[b + 7].value == restored_acts(sv.h)
        }),
{
    reveal(ready);
    assert(entry_ok(t, b));
    assert(entry_ok(t, b + 1));
    assert(entry_ok(t, b + 2));
    assert(entry_ok(t, b + 3));
    assert(entry_ok(t, b + 4));
    assert(entry_ok(t, b + 5));
    assert(entry_ok(t, b + 6));
    assert(entry_ok(t, b + 7));
}

/// The sweep over a feed-forward layer adds the gradients that its backward pass
/// gives to its input and its weights.
proof fn lemma_ffn_sweep<T: Float>(
    t: Seq<Entry<T>>,
    gs: Seq<Array<T>>,
    b: int,
    x: NodeId,
    gate: NodeId,
    up: NodeId,
    down: NodeId,
)
    requires
        ready(t, gs),
        ffn_made(t, b, x, gate, up, down),
        x < b && gate < b && up < b && down < b,
        x != gate && x != up && x != down && gate != up && gate != down && up != down,
        all_untouched(gs, b, b + 9),
    ensures
        ({
            let r = sweep(t, gs, b + 10, b);
            let f = ffn_grads_at(t, x, gate, up, down, gs[b + 9]);
            &&& ready(t, r)
            &&& fit(f.grad_x, t[x as int].value.dims)
            &&& r[x as int] == add_of(gs[x as int], f.grad_x)
            &&& r[gate as int] == add_of(gs[gate as int], f.grad_w_gate)
            &&& r[up as int] == add_of(gs[up as int], f.grad_w_up)
            &&& r[down as int] == add_of(gs[down as int], f.grad_w_down)
            &&& forall|j: int|
                0 <= j < b && j != x && j != gate && j != up && j != down ==> #[trigger] r[j]
                    == gs[j]
        }),
{
    assert(untouched(gs, b) && untouched(gs, b + 1) && untouched(gs, b + 2));
    assert(untouched(gs, b + 3) && untouched(gs, b + 4) && untouched(gs, b + 5));
    assert(untouched(gs, b + 6) && untouched(gs, b + 7) && untouched(gs, b + 8));
    lemma_ffn_lower(t, gs, b, down);
    let g1 = sweep(t, gs, b + 10, b + 6);
    assert(g1[b] == gs[b] && g1[b + 1] == gs[b + 1] && g1[b + 2] == gs[b + 2] && g1[b + 4]
        == gs[b + 4]);
    lemma_ffn_upper(t, g1, b, x, gate, up);
    lemma_sweep_split(t, gs, b + 10, b + 6, b);
    lemma_ffn_values(t, gs, b, x, gate, up, down);
    assert(g1[x as int] == gs[x as int] && g1[gate as int] == gs[gate as int] && g1[up as int]
        == gs[up as int]);
    let r = sweep(t, g1, b + 6, b);
    assert(r[down as int] == g1[down as int]);
    assert forall|j: int|
        0 <= j < b && j != x && j != gate && j != up && j != down implies #[trigger] r[j]
        == gs[j] by {
        assert(g1[j] == gs[j]);
    }
}

/// The nodes of a head over quantised activations `x`.
#[verifier::opaque]
pub open spec fn head_made<T>(t: Seq<Entry<T>>, b: int, x: NodeId, h: AttentionHeadVars, scale: T) -> bool {
    &&& 0 <= b
    &&& b + 17 <= t.len() <= usize::MAX
    &&& t[b].step == Step::<T>::QuantiseWeights(h.w_q.id)
    &&& t[b + 1].step == Step::<T>::MatMul(x, b as usize)
    &&& t[b + 2].step == Step::<T>::Rope((b + 1) as usize)
    &&& t[b + 3].step == Step::<T>::QuantiseWeights(h.w_k.id)
    &&& t[b + 4].step == Step::<T>::MatMul(x, (b + 3) as usize)
    &&& t[b + 5].step == Step::<T>::Rope((b + 4) as usize)
    &&& t[b + 6].step == Step::<T>::QuantiseWeights(h.w_v.id)
    &&& t[b + 7].step == Step::<T>::MatMul(x, (b + 6) as usize)
    &&& t[b + 8].step == Step::<T>::Transpose((b + 5) as usize)
    &&& t[b + 9].step == Step::<T>::MatMul((b + 2) as usize, (b + 8) as usize)
    &&& t[b + 10].step == Step::<T>::MulScalar((b + 9) as usize, scale)
    &&& t[b + 11].step == Step::<T>::CausalMask((b + 10) as usize)
    &&& t[b + 12].step == Step::<T>::Softmax((b + 11) as usize)
    &&& t[b + 13].step == Step::<T>::MatMul((b + 12) as usize, (b + 7) as usize)
    &&& t[b + 14].step == Step::<T>::QuantiseActs((b + 13) as usize)
    &&& t[b + 15].step == Step::<T>::QuantiseWeights(h.w_o.id)
    &&& t[b + 16].step == Step::<T>::MatMul((b + 14) as usize, (b + 15) as usize)
}

/// The recorded steps of a head are its nodes.
proof fn lemma_head_made<T>(t: Seq<Entry<T>>, b: int, x: NodeId, h: AttentionHeadVars, scale: T)
    requires
        made_by(t, b, head_steps(b, x, h, scale)),
        t.len() <= usize::MAX,
    ensures
        head_made(t, b, x, h, scale),
{
    reveal(head_made);
    let s = head_steps::<T>(b, x, h, scale);
    assert(s.len() == 17);
    assert(t[b + 0].step == s[0]);
    assert(t[b + 1].step == s[1]);
    assert(t[b + 2].step == s[2]);
    assert(t[b + 3].step == s[3]);
    assert(t[b + 4].step == s[4]);
    assert(t[b + 5].step == s[5]);
    assert(t[b + 6].step == s[6]);
    assert(t[b + 7].step == s[7]);
    assert(t[b + 8].step == s[8]);
    assert(t[b + 9].step == s[9]);
    assert(t[b + 10].step == s[10]);
    assert(t[b + 11].step == s[11]);
    assert(t[b + 12].step == s[12]);
    assert(t[b + 13].step == s[13]);
    assert(t[b + 14].step == s[14]);
    assert(t[b + 15].step == s[15]);
    assert(t[b + 16].step == s[16]);
}

/// The sweep over the last part of a head, down to its attention weights and values.
proof fn lemma_head_mix<T: Float>(t: Seq<Entry<T>>, gs: Seq<Array<T>>, b: int, o: NodeId)
    requires
        ready(t, gs),
        0 <= b,
        b + 17 <= t.len() <= usize::MAX,
        t[b + 13].step == Step::<T>::MatMul((b + 12) as usize, (b + 7) as usize),
        t[b + 14].step == Step::<T>::QuantiseActs((b + 13) as usize),
        t[b + 15].step == Step::<T>::QuantiseWeights(o),
        t[b + 16].step == Step::<T>::MatMul((b + 14) as usize, (b + 15) as usize),
        o < b,
        untouched(gs, b + 7) && untouched(gs, b + 12) && untouched(gs, b + 13),
        untouched(gs, b + 14) && untouched(gs, b + 15),
    ensures
        ({
            let r = sweep(t, gs, b + 17, b + 13);
            let gc = to_input(gs[b + 16], t[o as int].value);
            &&& ready(t, r)
            &&& r[b + 12] == matmul_of(gc, transpose_of(t[b + 7].value))
            &&& r[b + 7] == matmul_of(transpose_of(t[b + 12].value), gc)
            &&& r[o as int] == add_of(gs[o as int], to_weights(t[b + 14].value, gs[b + 16]))
            &&& forall|j: int|
                0 <= j < b + 13 && j != b + 12 && j != b + 7 && j != o ==> #[trigger] r[j]
                    == gs[j]
        }),
{
    lemma_linear_pass(t, gs, b + 15, (b + 14) as usize, o);
    let g1 = sweep(t, gs, b + 17, b + 15);
    assert(g1[b + 13] == gs[b + 13]);
    lemma_acts_pass(t, g1, b + 14, (b + 13) as usize);
    let g2 = sweep(t, g1, b + 15, b + 14);
    assert(g2[b + 12] == g1[b + 12] && g1[b + 12] == gs[b + 12]);
    assert(g2[b + 7] == g1[b + 7] && g1[b + 7] == gs[b + 7]);
    lemma_matmul_pass(t, g2, b + 13, (b + 12) as usize, (b + 7) as usize);
    let g3 = sweep(t, g2, b + 14, b + 13);
    lemma_sweep_split(t, gs, b + 17, b + 15, b + 13);
    lemma_sweep_split(t, g1, b + 15, b + 14, b + 13);
    assert forall|j: int| 0 <= j < b + 13 && j != b + 12 && j != b + 7 && j != o implies
        #[trigger] g3[j] == gs[j] by {
        assert(g2[j] == g1[j]);
        assert(g1[j] == gs[j]);
    }
    assert(g3[o as int] == g2[o as int] && g2[o as int] == g1[o as int]);
}

/// The sweep over the scores of a head, down to its rotated queries and keys.
proof fn lemma_head_scores<T: Float>(t: Seq<Entry<T>>, gs: Seq<Array<T>>, b: int, scale: T)
    requires
        ready(t, gs),
        0 <= b,
        b + 13 <= t.len() <= usize::MAX,
        t[b + 8].step == Step::<T>::Transpose((b + 5) as usize),
        t[b + 9].step == Step::<T>::MatMul((b + 2) as usize, (b + 8) as usize),
        t[b + 10].step == Step::<T>::MulScalar((b + 9) as usize, scale),
        t[b + 11].step == Step::<T>::CausalMask((b + 10) as usize),
        t[b + 12].step == Step::<T>::Softmax((b + 11) as usize),
        untouched(gs, b + 2) && untouched(gs, b + 5) && untouched(gs, b + 8),
        untouched(gs, b + 9) && untouched(gs, b + 10) && untouched(gs, b + 11),
    ensures
        ({
            let r = sweep(t, gs, b + 13, b + 8);
            let raw = scale_of(
                causal_mask_grad_of(softmax_grad_of(gs[b + 12], t[b + 12].value)),
                scale,
            );
            &&& ready(t, r)
            &&& r[b + 2] == matmul_of(raw, transpose_of(t[b + 8].value))
            &&& r[b + 5] == transpose_of(matmul_of(transpose_of(t[b + 2].value), raw))
            &&& forall|j: int|
                0 <= j < b + 8 && j != b + 2 && j != b + 5 ==> #[trigger] r[j] == gs[j]
        }),
{
    lemma_softmax_pass(t, gs, b + 12, (b + 11) as usize);
    let g1 = sweep(t, gs, b + 13, b + 12);
    assert(g1[b + 10] == gs[b + 10]);
    lemma_mask_pass(t, g1, b + 11, (b + 10) as usize);
    let g2 = sweep(t, g1, b + 12, b + 11);
    assert(g2[b + 9] == g1[b + 9] && g1[b + 9] == gs[b + 9]);
    lemma_scale_pass(t, g2, b + 10, (b + 9) as usize, scale);
    let g3 = sweep(t, g2, b + 11, b + 10);
    assert(g3[b + 2] == g2[b + 2] && g2[b + 2] == g1[b + 2] && g1[b + 2] == gs[b + 2]);
    assert(g3[b + 8] == g2[b + 8] && g2[b + 8] == g1[b + 8] && g1[b + 8] == gs[b + 8]);
    lemma_matmul_pass(t, g3, b + 9, (b + 2) as usize, (b + 8) as usize);
    let g4 = sweep(t, g3, b + 10, b + 9);
    assert(g4[b + 5] == g3[b + 5] && g3[b + 5] == g2[b + 5] && g2[b + 5] == g1[b + 5]
        && g1[b + 5] == gs[b + 5]);
    lemma_transpose_pass(t, g4, b + 8, (b + 5) as usize);
    let g5 = sweep(t, g4, b + 9, b + 8);
    lemma_sweep_split(t, gs, b + 13, b + 12, b + 8);
    lemma_sweep_split(t, g1, b + 12, b + 11, b + 8);
    lemma_sweep_split(t, g2, b + 11, b + 10, b + 8);
    lemma_sweep_split(t, g3, b + 10, b + 9, b + 8);
    assert(g5[b + 2] == g4[b + 2]);
    assert forall|j: int| 0 <= j < b + 8 && j != b + 2 && j != b + 5 implies #[trigger] g5[j]
        == gs[j] by {
        assert(g4[j] == g3[j]);
        assert(g3[j] == g2[j]);
        assert(g2[j] == g1[j]);
        assert(g1[j] == gs[j]);
    }
}

/// The sweep over the projections of a head.
proof fn lemma_head_inputs<T: Float>(
    t: Seq<Entry<T>>,
    gs: Seq<Array<T>>,
    b: int,
    x: NodeId,
    q: NodeId,
    k: NodeId,
    v: NodeId,
)
    requires
        ready(t, gs),
        0 <= b,
        b + 8 <= t.len() <= usize::MAX,
        t[b].step == Step::<T>::QuantiseWeights(q),
        t[b + 1].step == Step::<T>::MatMul(x, b as usize),
        t[b + 2].step == Step::<T>::Rope((b + 1) as usize),
        t[b + 3].step == Step::<T>::QuantiseWeights(k),
        t[b + 4].step == Step::<T>::MatMul(x, (b + 3) as usize),
        t[b + 5].step == Step::<T>::Rope((b + 4) as usize),
        t[b + 6].step == Step::<T>::QuantiseWeights(v),
        t[b + 7].step == Step::<T>::MatMul(x, (b + 6) as usize),
        x < b && q < b && k < b && v < b,
        x != q && x != k && x != v && q != k && q != v && k != v,
        untouched(gs, b) && untouched(gs, b + 1) && untouched(gs, b + 3) && untouched(gs, b + 4)
            && untouched(gs, b + 6),
    ensures
        ({
            let r = sweep(t, gs, b + 8, b);
            let gq = rope_grad_of(gs[b + 2]);
            let gk = rope_grad_of(gs[b + 5]);
            let gv = gs[b + 7];
            &&& ready(t, r)
            &&& fit(
                add_of(
                    add_of(to_input(gq, t[q as int].value), to_input(gk, t[k as int].value)),
                    to_input(gv, t[v as int].value),
                ),
                t[x as int].value.dims,
            )
            &&& r[x as int] == add_of(
                gs[x as int],
                add_of(
                    add_of(to_input(gq, t[q as int].value), to_input(gk, t[k as int].value)),
                    to_input(gv, t[v as int].value),
                ),
            )
            &&& r[q as int] == add_of(gs[q as int], to_weights(t[x as int].value, gq))
            &&& r[k as int] == add_of(gs[k as int], to_weights(t[x as int].value, gk))
            &&& r[v as int] == add_of(gs[v as int], to_weights(t[x as int].value, gv))
            &&& forall|j: int|
                0 <= j < b && j != x && j != q && j != k && j != v ==> #[trigger] r[j] == gs[j]
        }),
{
    lemma_linear_pass(t, gs, b + 6, x, v);
    let g1 = sweep(t, gs, b + 8, b + 6);
    assert(g1[b + 5] == gs[b + 5] && g1[b + 4] == gs[b + 4]);
    lemma_rope_pass(t, g1, b + 5, (b + 4) as usize);
    let g2 = sweep(t, g1, b + 6, b + 5);
    assert(g2[b + 3] == g1[b + 3] && g1[b + 3] == gs[b + 3]);
    lemma_linear_pass(t, g2, b + 3, x, k);
    let g3 = sweep(t, g2, b + 5, b + 3);
    assert(g3[b + 2] == g2[b + 2] && g2[b + 2] == g1[b + 2] && g1[b + 2] == gs[b + 2]);
    assert(g3[b + 1] == g2[b + 1] && g2[b + 1] == g1[b + 1] && g1[b + 1] == gs[b + 1]);
    lemma_rope_pass(t, g3, b + 2, (b + 1) as usize);
    let g4 = sweep(t, g3, b + 3, b + 2);
    assert(g4[b] == g3[b] && g3[b] == g2[b] && g2[b] == g1[b] && g1[b] == gs[b]);
    lemma_linear_pass(t, g4, b, x, q);
    let g5 = sweep(t, g4, b + 2, b);
    lemma_sweep_split(t, gs, b + 8, b + 6, b);
    lemma_sweep_split(t, g1, b + 6, b + 5, b);
    lemma_sweep_split(t, g2, b + 5, b + 3, b);
    lemma_sweep_split(t, g3, b + 3, b + 2, b);
    assert forall|j: int|
        0 <= j < b && j != x && j != q && j != k && j != v implies #[trigger] g5[j] == gs[j] by {
        assert(g4[j] == g3[j]);
        assert(g3[j] == g2[j]);
        assert(g2[j] == g1[j]);
        assert(g1[j] == gs[j]);
    }
    assert(g2[x as int] == g1[x as int] && g4[x as int] == g3[x as int]);
    assert(g5[v as int] == g4[v as int] && g4[v as int] == g3[v as int] && g3[v as int]
        == g2[v as int] && g2[v as int] == g1[v as int]);
    assert(g5[k as int] == g4[k as int] && g4[k as int] == g3[k as int] && g2[k as int]
        == g1[k as int] && g1[k as int] == gs[k as int]);
    assert(g4[q as int] == g3[q as int] && g3[q as int] == g2[q as int] && g2[q as int]
        == g1[q as int] && g1[q as int] == gs[q as int]);
    let z = gs[x as int];
    let lq = to_input(rope_grad_of(gs[b + 2]), t[q as int].value);
    let lk = to_input(rope_grad_of(gs[b + 5]), t[k as int].value);
    let lv = to_input(gs[b + 7], t[v as int].value);
    assert(g5[x as int] == add_of(add_of(add_of(z, lv), lk), lq));
    lemma_four_terms(t, gs, x, z, lq, lk, lv);
}

/// Three terms added one by one are their sum added at once.
proof fn lemma_four_terms<T: Float>(
    t: Seq<Entry<T>>,
    gs: Seq<Array<T>>,
    i: NodeId,
    z: Array<T>,
    q: Array<T>,
    k: Array<T>,
    v: Array<T>,
)
    requires
        ready(t, gs),
        i < t.len(),
        z == gs[i as int],
        fit(q, t[i as int].value.dims),
        fit(k, t[i as int].value.dims),
        fit(v, t[i as int].value.dims),
    ensures
        add_of(add_of(add_of(z, v), k), q) == add_of(z, add_of(add_of(q, k), v)),
        fit(add_of(add_of(q, k), v), t[i as int].value.dims),
{
    reveal(order_free);
    reveal(ready);
    let (a, b) = (add_of(add_of(add_of(z, v), k), q), add_of(z, add_of(add_of(q, k), v)));
    assert forall|i: int| 0 <= i < a.data.len() implies #[trigger] a.data[i] == b.data[i] by {
        let (w, x, y, u) = (z.data[i], q.data[i], k.data[i], v.data[i]);
        assert(a.data[i] == fadd(fadd(fadd(w, u), y), x));
        assert(b.data[i] == fadd(w, fadd(fadd(x, y), u)));
        assert(fadd(fadd(w, u), y) == fadd(w, fadd(u, y)));
        assert(fadd(fadd(w, fadd(u, y)), x) == fadd(w, fadd(fadd(u, y), x)));
        assert(fadd(fadd(u, y), x) == fadd(x, fadd(u, y)));
        assert(fadd(u, y) == fadd(y, u));
        assert(fadd(fadd(x, y), u) == fadd(x, fadd(y, u)));
    }
    assert(a.data =~= b.data);
}

/// The weights of a head on a tape.
pub open spec fn head_weights<T>(t: Seq<Entry<T>>, h: AttentionHeadVars) -> HeadWeights<Array<T>> {
    HeadWeights {
        w_q: t[h.w_q.id as int].value,
        w_k: t[h.w_k.id as int].value,
        w_v: t[h.w_v.id as int].value,
        w_o: t[h.w_o.id as int].value,
    }
}

/// The gradients of a head over activations `v`, from the values on a tape.
#[verifier::opaque]
pub open spec fn head_grads_at<T: Float>(
    t: Seq<Entry<T>>,
    v: Array<T>,
    h: AttentionHeadVars,
    scale: T,
    g: Array<T>,
) -> AttentionHeadGrads<Array<T>> {
    let w = head_weights(t, h);
    head_grads_bit_of::<Tensor<T>>(
        g,
        v,
        head_saved_bit_of::<Tensor<T>>(v, w, scale),
        w,
        scale,
    )
}

/// The values on the nodes of a head.
proof fn lemma_head_values<T: Float>(
    t: Seq<Entry<T>>,
    gs: Seq<Array<T>>,
    b: int,
    x: NodeId,
    h: AttentionHeadVars,
    scale: T,
    v: Array<T>,
)
    requires
        ready(t, gs),
        head_made(t, b, x, h, scale),
        t[x as int].value == restored_acts(v),
    ensures
        ({
            let sv = head_saved_bit_of::<Tensor<T>>(v, head_weights(t, h), scale);
            &&& t[b + 2].value == sv.q
            &&& t[b + 5].value == sv.k
            &&& t[b + 7].value == sv.v
            &&& t[b + 8].value == transpose_of(sv.k)
            &&& t[b + 12].value == sv.attn
            &&& t[b + 14].value == restored_acts(sv.ctx)
        }),
{
    reveal(ready);
    reveal(head_made);
    assert(entry_ok(t, b));
    assert(entry_ok(t, b + 1));
    assert(entry_ok(t, b + 2));
    assert(entry_ok(t, b + 3));
    assert(entry_ok(t, b + 4));
    assert(entry_ok(t, b + 5));
    assert(entry_ok(t, b + 6));
    assert(entry_ok(t, b + 7));
    assert(entry_ok(t, b + 8));
    assert(entry_ok(t, b + 9));
    assert(entry_ok(t, b + 10));
    assert(entry_ok(t, b + 11));
    assert(entry_ok(t, b + 12));
    assert(entry_ok(t, b + 13));
    assert(entry_ok(t, b + 14));
}

/// The nodes of a head's weights are four, and lie before node `b`.
pub open spec fn head_apart(b: int, x: NodeId, h: AttentionHeadVars) -> bool {
    let (q, k, v, o) = (h.w_q.id, h.w_k.id, h.w_v.id, h.w_o.id);
    &&& x < b && q < b && k < b && v < b && o < b
    &&& x != q && x != k && x != v && x != o
    &&& q != k && q != v && q != o && k != v && k != o && v != o
}

/// The node is one of a head's weights.
pub open spec fn is_weight(j: int, h: AttentionHeadVars) -> bool {
    j == h.w_q.id || j == h.w_k.id || j == h.w_v.id || j == h.w_o.id
}

/// The gradients of a head's weights were added.
pub open spec fn head_added<T: Float>(
    r: Seq<Array<T>>,
    gs: Seq<Array<T>>,
    h: AttentionHeadVars,
    d: AttentionHeadGrads<Array<T>>,
) -> bool {
    &&& r[h.w_q.id as int] == add_of(gs[h.w_q.id as int], d.grad_w_q)
    &&& r[h.w_k.id as int] == add_of(gs[h.w_k.id as int], d.grad_w_k)
    &&& r[h.w_v.id as int] == add_of(gs[h.w_v.id as int], d.grad_w_v)
    &&& r[h.w_o.id as int] == add_of(gs[h.w_o.id as int], d.grad_w_o)
}

/// The sweep over a head adds the gradients that its backward pass gives to its
/// input and its weights.
proof fn lemma_head_sweep<T: Float>(
    t: Seq<Entry<T>>,
    gs: Seq<Array<T>>,
    b: int,
    x: NodeId,
    h: AttentionHeadVars,
    scale: T,
    v: Array<T>,
)
    requires
        ready(t, gs),
        head_made(t, b, x, h, scale),
        head_apart(b, x, h),
        t[x as int].value == restored_acts(v),
        all_untouched(gs, b, b + 16),
    ensures
        ({
            let r = sweep(t, gs, b + 17, b);
            let d = head_grads_at(t, v, h, scale, gs[b + 16]);
            &&& ready(t, r)
            &&& fit(d.grad_x, t[x as int].value.dims)
            &&& r[x as int] == add_of(gs[x as int], d.grad_x)
            &&& head_added(r, gs, h, d)
            &&& forall|j: int|
                0 <= j < b && j != x && !is_weight(j, h) ==> #[trigger] r[j] == gs[j]
        }),
{
    let (q, k, vv, o) = (h.w_q.id, h.w_k.id, h.w_v.id, h.w_o.id);
    assert(untouched(gs, b) && untouched(gs, b + 1) && untouched(gs, b + 2));
    assert(untouched(gs, b + 3) && untouched(gs, b + 4) && untouched(gs, b + 5));
    assert(untouched(gs, b + 6) && untouched(gs, b + 7) && untouched(gs, b + 8));
    assert(untouched(gs, b + 9) && untouched(gs, b + 10) && untouched(gs, b + 11));
    assert(untouched(gs, b + 12) && untouched(gs, b + 13) && untouched(gs, b + 14));
    assert(untouched(gs, b + 15));
    reveal(head_grads_at);
    reveal(head_made);
    lemma_head_mix(t, gs, b, o);
    let g1 = sweep(t, gs, b + 17, b + 13);
    assert(g1[b + 2] == gs[b + 2] && g1[b + 5] == gs[b + 5] && g1[b + 8] == gs[b + 8]);
    assert(g1[b + 9] == gs[b + 9] && g1[b + 10] == gs[b + 10] && g1[b + 11] == gs[b + 11]);
    lemma_head_scores(t, g1, b, scale);
    let g2 = sweep(t, g1, b + 13, b + 8);
    assert(g1[b] == gs[b] && g1[b + 1] == gs[b + 1] && g1[b + 3] == gs[b + 3] && g1[b + 4]
        == gs[b + 4] && g1[b + 6] == gs[b + 6]);
    assert(g2[b] == g1[b] && g2[b + 1] == g1[b + 1] && g2[b + 3] == g1[b + 3] && g2[b + 4]
        == g1[b + 4] && g2[b + 6] == g1[b + 6]);
    lemma_head_inputs(t, g2, b, x, q, k, vv);
    let r = sweep(t, g2, b + 8, b);
    lemma_sweep_split(t, gs, b + 17, b + 13, b);
    lemma_sweep_split(t, g1, b + 13, b + 8, b);
    lemma_head_values(t, gs, b, x, h, scale, v);
    assert(g2[b + 7] == g1[b + 7]);
    let d = head_grads_at(t, v, h, scale, gs[b + 16]);
    assert(g2[x as int] == g1[x as int] && g1[x as int] == gs[x as int]);
    assert(g2[q as int] == g1[q as int] && g1[q as int] == gs[q as int]);
    assert(g2[k as int] == g1[k as int] && g1[k as int] == gs[k as int]);
    assert(g2[vv as int] == g1[vv as int] && g1[vv as int] == gs[vv as int]);
    assert(r[o as int] == g2[o as int] && g2[o as int] == g1[o as int]);
    assert forall|j: int| 0 <= j < b && j != x && !is_weight(j, h) implies #[trigger] r[j]
        == gs[j] by {
        assert(g2[j] == g1[j]);
        assert(g1[j] == gs[j]);
    }
}

/// A sum passes its gradient to both terms.
proof fn lemma_add_pass<T: Float>(
    t: Seq<Entry<T>>,
    gs: Seq<Array<T>>,
    k: int,
    a: NodeId,
    b: NodeId,
)
    requires
        ready(t, gs),
        0 <= k < t.len(),
        t[k].step == Step::<T>::Add(a, b),
        a != b,
        untouched(gs, b as int),
    ensures
        ready(t, sweep(t, gs, k + 1, k)),
        a < k && b < k,
        fit(gs[k], t[a as int].value.dims),
        sweep(t, gs, k + 1, k)[a as int] == add_of(gs[a as int], gs[k]),
        untouched(gs, a as int) ==> sweep(t, gs, k + 1, k)[a as int] == gs[k],
        sweep(t, gs, k + 1, k)[b as int] == gs[k],
        only_at_two(sweep(t, gs, k + 1, k), gs, k, a as int, b as int),
{
    reveal(ready);
    assert(entry_ok(t, k));
    lemma_sweep_one(t, gs, k);
    lemma_shares_fit(t, k, gs[k]);
    let c = contributions(t, k, gs[k]);
    assert(c[0] == (a, gs[k]) && c[1] == (b, gs[k]));
    lemma_from_zero(gs[b as int], gs[k]);
    if untouched(gs, a as int) {
        lemma_from_zero(gs[a as int], gs[k]);
    }
}

/// What a normalisation adds to the gradient of its input.
pub proof fn lemma_rmsnorm_add<T: Float>(t: Seq<Entry<T>>, gs: Seq<Array<T>>, k: int, a: NodeId)
    requires
        ready(t, gs),
        0 <= k < t.len(),
        t[k].step == Step::<T>::RmsNorm(a),
    ensures
        ready(t, sweep(t, gs, k + 1, k)),
        a < k,
        t[k].value == rmsnorm_of(t[a as int].value),
        fit(rmsnorm_grad_of(gs[k], t[a as int].value), t[a as int].value.dims),
        sweep(t, gs, k + 1, k)[a as int] == add_of(
            gs[a as int],
            rmsnorm_grad_of(gs[k], t[a as int].value),
        ),
        only_at(sweep(t, gs, k + 1, k), gs, k, a as int),
{
    reveal(ready);
    assert(entry_ok(t, k));
    lemma_sweep_one(t, gs, k);
    lemma_shares_fit(t, k, gs[k]);
    let c = contributions(t, k, gs[k]);
    assert(c[0] == (a, rmsnorm_grad_of(gs[k], t[a as int].value)));
}

/// Two terms added one by one are their sum added at once.
proof fn lemma_three_terms<T: Float>(
    t: Seq<Entry<T>>,
    gs: Seq<Array<T>>,
    i: NodeId,
    a: Array<T>,
    b: Array<T>,
)
    requires
        ready(t, gs),
        i < t.len(),
        fit(a, t[i as int].value.dims),
        fit(b, t[i as int].value.dims),
    ensures
        add_of(add_of(gs[i as int], a), b) == add_of(gs[i as int], add_of(a, b)),
        add_of(a, b) == add_of(b, a),
        fit(add_of(a, b), t[i as int].value.dims),
        untouched(gs, i as int) ==> add_of(add_of(gs[i as int], a), b) == add_of(a, b),
{
    reveal(ready);
    lemma_sum_order(gs[i as int], a, b);
    lemma_sum_order(a, b, b);
    if untouched(gs, i as int) {
        lemma_from_zero(gs[i as int], add_of(a, b));
    }
}

/// What a longer stretch of steps made, its parts made.
pub proof fn lemma_made_split<T>(t: Seq<Entry<T>>, b: int, first: Seq<Step<T>>, second: Seq<Step<T>>)
    requires
        made_by(t, b, first + second),
    ensures
        made_by(t, b, first),
        made_by(t, b + first.len(), second),
{
    let all = first + second;
    assert forall|k: int| 0 <= k < first.len() implies (#[trigger] t[b + k]).step == first[k] by {
        assert(t[b + k].step == all[k]);
    }
    let at = b + first.len();
    assert forall|k: int| 0 <= k < second.len() implies (#[trigger] t[at + k]).step
        == second[k] by {
        assert(t[b + (first.len() + k)].step == all[first.len() + k]);
    }
}

/// The nodes of the first `n` heads over node `x`.
#[verifier::opaque]
pub open spec fn heads_made<T>(
    t: Seq<Entry<T>>,
    b: int,
    x: NodeId,
    heads: Seq<AttentionHeadVars>,
    scale: T,
    n: nat,
) -> bool {
    made_by(t, b, heads_steps(b, x, heads, scale, n))
}

/// The number of nodes of `n` heads.
proof fn lemma_heads_steps_len<T>(
    b: int,
    x: NodeId,
    heads: Seq<AttentionHeadVars>,
    scale: T,
    n: nat,
)
    requires
        n >= 1,
    ensures
        heads_steps(b, x, heads, scale, n).len() == 18 * n - 1,
    decreases n,
{
    assert(head_steps(b, x, heads[0], scale).len() == 17);
    if n > 1 {
        lemma_heads_steps_len(b, x, heads, scale, (n - 1) as nat);
        let at = b + heads_steps(b, x, heads, scale, (n - 1) as nat).len();
        assert(head_steps(at, x, heads[n - 1], scale).len() == 17);
    }
}

/// Two heads have no weight in common.
pub open spec fn share_none(a: AttentionHeadVars, b: AttentionHeadVars) -> bool {
    forall|j: int| #[trigger] is_weight(j, a) ==> !is_weight(j, b)
}

/// The heads' weights lie before node `b`, and no two are one node.
pub open spec fn heads_apart(b: int, x: NodeId, heads: Seq<AttentionHeadVars>) -> bool {
    &&& forall|i: int| 0 <= i < heads.len() ==> #[trigger] head_apart(b, x, heads[i])
    &&& forall|i: int, k: int|
        0 <= i < heads.len() && 0 <= k < heads.len() && i != k ==> #[trigger] share_none(
            heads[i],
            heads[k],
        )
}

/// What the first `n` heads pass back to their input, from the values on a tape.
pub open spec fn heads_grad_at<T: Float>(
    t: Seq<Entry<T>>,
    v: Array<T>,
    heads: Seq<AttentionHeadVars>,
    scale: T,
    g: Array<T>,
    n: nat,
) -> Array<T>
    decreases n,
{
    let last = head_grads_at(t, v, heads[n - 1], scale, g).grad_x;
    if n <= 1 {
        last
    } else {
        add_of(heads_grad_at(t, v, heads, scale, g, (n - 1) as nat), last)
    }
}

/// The node is no weight of the first `n` heads.
pub open spec fn no_weight(j: int, heads: Seq<AttentionHeadVars>, n: nat) -> bool {
    forall|i: int| 0 <= i < n ==> !#[trigger] is_weight(j, heads[i])
}

/// The gradients of head `i` were added.
pub open spec fn added_at<T: Float>(
    r: Seq<Array<T>>,
    gs: Seq<Array<T>>,
    t: Seq<Entry<T>>,
    heads: Seq<AttentionHeadVars>,
    scale: T,
    v: Array<T>,
    g: Array<T>,
    i: int,
) -> bool {
    head_added(r, gs, heads[i], head_grads_at(t, v, heads[i], scale, g))
}

/// What the sweep over the first `n` heads does to the gradients before node `b`.
pub open spec fn heads_swept<T: Float>(
    r: Seq<Array<T>>,
    gs: Seq<Array<T>>,
    t: Seq<Entry<T>>,
    b: int,
    x: NodeId,
    heads: Seq<AttentionHeadVars>,
    scale: T,
    v: Array<T>,
    g: Array<T>,
    n: nat,
) -> bool {
    &&& fit(heads_grad_at(t, v, heads, scale, g, n), t[x as int].value.dims)
    &&& r[x as int] == add_of(gs[x as int], heads_grad_at(t, v, heads, scale, g, n))
    &&& forall|i: int|
        0 <= i < n ==> #[trigger] added_at(r, gs, t, heads, scale, v, g, i)
    &&& forall|j: int|
        0 <= j < b && j != x && no_weight(j, heads, n) ==> #[trigger] r[j] == gs[j]
}

/// The nodes of the last of several heads and of the sum after it.
proof fn lemma_heads_peel<T>(
    t: Seq<Entry<T>>,
    b: int,
    x: NodeId,
    heads: Seq<AttentionHeadVars>,
    scale: T,
    n: nat,
)
    requires
        t.len() <= usize::MAX,
        2 <= n <= heads.len(),
        heads_made(t, b, x, heads, scale, n),
    ensures
        heads_made(t, b, x, heads, scale, (n - 1) as nat),
        head_made(t, b + 18 * n - 19, x, heads[n - 1], scale),
        b + 18 * n - 1 <= t.len(),
        t[b + 18 * n - 2].step == Step::<T>::Add(
            (b + 18 * n - 20) as usize,
            (b + 18 * n - 3) as usize,
        ),
{
    reveal(heads_made);
    let p = (n - 1) as nat;
    lemma_heads_steps_len(b, x, heads, scale, p);
    let before = heads_steps(b, x, heads, scale, p);
    let at = b + before.len();
    let own = head_steps(at, x, heads[n - 1], scale);
    assert(own.len() == 17);
    let add = seq![Step::<T>::Add((at - 1) as usize, (at + 16) as usize)];
    assert(heads_steps(b, x, heads, scale, n) =~= before + (own + add));
    lemma_made_split(t, b, before, own + add);
    lemma_made_split(t, at, own, add);
    assert(t[at + 17 + 0].step == add[0]);
    lemma_head_made(t, at, x, heads[n - 1], scale);
}

/// The nodes of a single head.
proof fn lemma_one_head<T>(
    t: Seq<Entry<T>>,
    b: int,
    x: NodeId,
    heads: Seq<AttentionHeadVars>,
    scale: T,
)
    requires
        t.len() <= usize::MAX,
        heads.len() >= 1,
        heads_made(t, b, x, heads, scale, 1),
    ensures
        head_made(t, b, x, heads[0], scale),
        b + 17 <= t.len(),
{
    reveal(heads_made);
    lemma_heads_steps_len(b, x, heads, scale, 1);
    lemma_head_made(t, b, x, heads[0], scale);
}

/// The sweep over the sum of two heads and the head that is added last.
proof fn lemma_last_head<T: Float>(
    t: Seq<Entry<T>>,
    gs: Seq<Array<T>>,
    b: int,
    at: int,
    x: NodeId,
    h: AttentionHeadVars,
    scale: T,
    v: Array<T>,
)
    requires
        ready(t, gs),
        t.len() <= usize::MAX,
        b < at,
        at + 18 <= t.len(),
        head_made(t, at, x, h, scale),
        t[at + 17].step == Step::<T>::Add((at - 1) as usize, (at + 16) as usize),
        head_apart(b, x, h),
        t[x as int].value == restored_acts(v),
        all_untouched(gs, b, at + 17),
    ensures
        ({
            let r = sweep(t, gs, at + 18, at);
            let d = head_grads_at(t, v, h, scale, gs[at + 17]);
            &&& ready(t, r)
            &&& fit(d.grad_x, t[x as int].value.dims)
            &&& r[x as int] == add_of(gs[x as int], d.grad_x)
            &&& r[at - 1] == gs[at + 17]
            &&& head_added(r, gs, h, d)
            &&& all_untouched(r, b, at - 1)
            &&& forall|j: int|
                0 <= j < b && j != x && !is_weight(j, h) ==> #[trigger] r[j] == gs[j]
        }),
{
    let k = at + 17;
    assert(untouched(gs, at + 16));
    assert(untouched(gs, at - 1));
    lemma_add_pass(t, gs, k, (at - 1) as usize, (at + 16) as usize);
    let g1 = sweep(t, gs, k + 1, k);
    assert forall|j: int| at <= j < at + 16 implies #[trigger] untouched(g1, j) by {
        assert(untouched(gs, j));
        assert(g1[j] == gs[j]);
    }
    lemma_head_sweep(t, g1, at, x, h, scale, v);
    let r = sweep(t, g1, at + 17, at);
    lemma_sweep_split(t, gs, k + 1, k, at);
    assert(g1[x as int] == gs[x as int]);
    assert(g1[h.w_q.id as int] == gs[h.w_q.id as int]);
    assert(g1[h.w_k.id as int] == gs[h.w_k.id as int]);
    assert(g1[h.w_v.id as int] == gs[h.w_v.id as int]);
    assert(g1[h.w_o.id as int] == gs[h.w_o.id as int]);
    assert forall|j: int| b <= j < at - 1 implies #[trigger] untouched(r, j) by {
        assert(untouched(gs, j));
        assert(g1[j] == gs[j]);
        assert(!is_weight(j, h));
        assert(r[j] == g1[j]);
    }
    assert(r[at - 1] == g1[at - 1]) by {
        assert(!is_weight(at - 1, h));
    }
    assert forall|j: int| 0 <= j < b && j != x && !is_weight(j, h) implies #[trigger] r[j]
        == gs[j] by {
        assert(r[j] == g1[j]);
        assert(g1[j] == gs[j]);
    }
}

/// The sweep over `n` heads adds what each gives.
proof fn lemma_heads_sweep<T: Float>(
    t: Seq<Entry<T>>,
    gs: Seq<Array<T>>,
    b: int,
    x: NodeId,
    heads: Seq<AttentionHeadVars>,
    scale: T,
    v: Array<T>,
    n: nat,
)
    requires
        ready(t, gs),
        t.len() <= usize::MAX,
        1 <= n <= heads.len(),
        heads_made(t, b, x, heads, scale, n),
        heads_apart(b, x, heads),
        t[x as int].value == restored_acts(v),
        all_untouched(gs, b, b + 18 * n - 2),
    ensures
        b + 18 * n - 1 <= t.len(),
        ready(t, sweep(t, gs, b + 18 * n - 1, b)),
        heads_swept(
            sweep(t, gs, b + 18 * n - 1, b),
            gs,
            t,
            b,
            x,
            heads,
            scale,
            v,
            gs[b + 18 * n - 2],
            n,
        ),
    decreases n,
{
    let h = heads[n - 1];
    let g = gs[b + 18 * n - 2];
    assert(head_apart(b, x, h));
    if n == 1 {
        lemma_one_head(t, b, x, heads, scale);
        lemma_head_sweep(t, gs, b, x, h, scale, v);
        let r = sweep(t, gs, b + 17, b);
        assert forall|j: int| 0 <= j < b && j != x && no_weight(j, heads, 1) implies
            #[trigger] r[j] == gs[j] by {
            assert(!is_weight(j, heads[0]));
        }
    } else {
        let p = (n - 1) as nat;
        let at = b + 18 * n - 19;
        lemma_heads_peel(t, b, x, heads, scale, n);
        lemma_last_head(t, gs, b, at, x, h, scale, v);
        let g2 = sweep(t, gs, at + 18, at);
        lemma_heads_sweep(t, g2, b, x, heads, scale, v, p);
        let r = sweep(t, g2, at, b);
        lemma_sweep_split(t, gs, at + 18, at, b);
        let d = head_grads_at(t, v, h, scale, g);
        let rest = heads_grad_at(t, v, heads, scale, g, p);
        lemma_three_terms(t, gs, x, d.grad_x, rest);
        lemma_heads_join(r, g2, gs, t, b, x, heads, scale, v, g, p);
    }
}

/// What one head and the heads before it add, all of them add.
proof fn lemma_heads_join<T: Float>(
    r: Seq<Array<T>>,
    g2: Seq<Array<T>>,
    gs: Seq<Array<T>>,
    t: Seq<Entry<T>>,
    b: int,
    x: NodeId,
    heads: Seq<AttentionHeadVars>,
    scale: T,
    v: Array<T>,
    g: Array<T>,
    p: nat,
)
    requires
        1 <= p < heads.len(),
        heads_apart(b, x, heads),
        heads_swept(r, g2, t, b, x, heads, scale, v, g, p),
        ({
            let h = heads[p as int];
            let d = head_grads_at(t, v, h, scale, g);
            let rest = heads_grad_at(t, v, heads, scale, g, p);
            &&& g2[x as int] == add_of(gs[x as int], d.grad_x)
            &&& add_of(add_of(gs[x as int], d.grad_x), rest) == add_of(
                gs[x as int],
                add_of(d.grad_x, rest),
            )
            &&& add_of(d.grad_x, rest) == add_of(rest, d.grad_x)
            &&& fit(add_of(d.grad_x, rest), t[x as int].value.dims)
            &&& head_added(g2, gs, h, d)
            &&& forall|j: int|
                0 <= j < b && j != x && !is_weight(j, h) ==> #[trigger] g2[j] == gs[j]
        }),
    ensures
        heads_swept(r, gs, t, b, x, heads, scale, v, g, p + 1),
{
    let h = heads[p as int];
    assert forall|i: int| 0 <= i < p + 1 implies #[trigger] added_at(
        r,
        gs,
        t,
        heads,
        scale,
        v,
        g,
        i,
    ) by {
        if i < p {
            lemma_kept_weights(gs, g2, b, x, heads, i, p as int);
            assert(added_at(r, g2, t, heads, scale, v, g, i));
        } else {
            lemma_later_weights(r, g2, b, x, h, heads, p);
        }
    }
    assert forall|j: int| 0 <= j < b && j != x && no_weight(j, heads, p + 1) implies
        #[trigger] r[j] == gs[j] by {
        assert(no_weight(j, heads, p)) by {
            assert forall|i: int| 0 <= i < p implies !#[trigger] is_weight(j, heads[i]) by {}
        }
        assert(!is_weight(j, heads[p as int]));
        assert(r[j] == g2[j]);
        assert(g2[j] == gs[j]);
    }
}

/// The weights of an earlier head are left alone by a later one.
proof fn lemma_kept_weights<T: Float>(
    gs: Seq<Array<T>>,
    g2: Seq<Array<T>>,
    b: int,
    x: NodeId,
    heads: Seq<AttentionHeadVars>,
    i: int,
    l: int,
)
    requires
        0 <= i < l < heads.len(),
        heads_apart(b, x, heads),
        forall|j: int|
            0 <= j < b && j != x && !is_weight(j, heads[l]) ==> #[trigger] g2[j] == gs[j],
    ensures
        g2[heads[i].w_q.id as int] == gs[heads[i].w_q.id as int],
        g2[heads[i].w_k.id as int] == gs[heads[i].w_k.id as int],
        g2[heads[i].w_v.id as int] == gs[heads[i].w_v.id as int],
        g2[heads[i].w_o.id as int] == gs[heads[i].w_o.id as int],
{
    let o = heads[i];
    assert(head_apart(b, x, heads[i]));
    assert(share_none(heads[i], heads[l]));
    assert forall|j: int| #[trigger] is_weight(j, o) implies g2[j] == gs[j] by {
        assert(!is_weight(j, heads[l]));
    }
    assert(is_weight(o.w_q.id as int, o) && is_weight(o.w_k.id as int, o));
    assert(is_weight(o.w_v.id as int, o) && is_weight(o.w_o.id as int, o));
}

/// The weights of a later head are left alone by the earlier ones.
proof fn lemma_later_weights<T: Float>(
    r: Seq<Array<T>>,
    g2: Seq<Array<T>>,
    b: int,
    x: NodeId,
    o: AttentionHeadVars,
    heads: Seq<AttentionHeadVars>,
    p: nat,
)
    requires
        p < heads.len(),
        o == heads[p as int],
        heads_apart(b, x, heads),
        forall|j: int| 0 <= j < b && j != x && no_weight(j, heads, p) ==> #[trigger] r[j] == g2[j],
    ensures
        r[o.w_q.id as int] == g2[o.w_q.id as int],
        r[o.w_k.id as int] == g2[o.w_k.id as int],
        r[o.w_v.id as int] == g2[o.w_v.id as int],
        r[o.w_o.id as int] == g2[o.w_o.id as int],
{
    assert(head_apart(b, x, heads[p as int]));
    assert forall|j: int| #[trigger] is_weight(j, o) implies r[j] == g2[j] by {
        assert forall|i: int| 0 <= i < p implies !#[trigger] is_weight(j, heads[i]) by {
            assert(share_none(heads[p as int], heads[i]));
        }
        assert(no_weight(j, heads, p));
    }
    assert(is_weight(o.w_q.id as int, o) && is_weight(o.w_k.id as int, o));
    assert(is_weight(o.w_v.id as int, o) && is_weight(o.w_o.id as int, o));
}

/// Adding to an untouched node gives what was added.
pub proof fn lemma_fresh_sum<T: Float>(t: Seq<Entry<T>>, gs: Seq<Array<T>>, i: int, a: Array<T>)
    requires
        ready(t, gs),
        0 <= i < t.len(),
        untouched(gs, i),
        fit(a, t[i].value.dims),
    ensures
        add_of(gs[i], a) == a,
{
    reveal(ready);
    lemma_from_zero(gs[i], a);
}

/// The nodes of the attention half of a block.
pub open spec fn attended_made<T>(
    t: Seq<Entry<T>>,
    b: int,
    x: NodeId,
    heads: Seq<AttentionHeadVars>,
    scale: T,
) -> bool {
    let n = heads.len();
    &&& 0 <= b
    &&& b + 18 * n + 2 <= t.len() <= usize::MAX
    &&& t[b].step == Step::<T>::RmsNorm(x)
    &&& t[b + 1].step == Step::<T>::QuantiseActs(b as usize)
    &&& heads_made(t, b + 2, (b + 1) as usize, heads, scale, n)
    &&& t[b + 18 * n + 1].step == Step::<T>::Add(x, (b + 18 * n) as usize)
}

/// The recorded steps of the attention half are its nodes.
proof fn lemma_attended_made<T>(
    t: Seq<Entry<T>>,
    b: int,
    x: NodeId,
    heads: Seq<AttentionHeadVars>,
    scale: T,
)
    requires
        heads.len() >= 1,
        made_by(t, b, attended_steps(b, x, heads, scale)),
        t.len() <= usize::MAX,
    ensures
        attended_steps(b, x, heads, scale).len() == 18 * heads.len() + 2,
        attended_made(t, b, x, heads, scale),
{
    reveal(heads_made);
    let n = heads.len();
    let own = heads_steps(b + 2, (b + 1) as usize, heads, scale, n);
    lemma_heads_steps_len(b + 2, (b + 1) as usize, heads, scale, n);
    let first = seq![Step::<T>::RmsNorm(x), Step::<T>::QuantiseActs(b as usize)];
    let last = seq![Step::<T>::Add(x, (b + 18 * n) as usize)];
    let all = attended_steps(b, x, heads, scale);
    assert(all =~= first + (own + last));
    lemma_made_split(t, b, first, own + last);
    lemma_made_split(t, b + 2, own, last);
    assert(t[b + 0].step == first[0]);
    assert(t[b + 1].step == first[1]);
    assert(t[b + 2 + own.len() + 0].step == last[0]);
}

/// The values of the first nodes of a half.
proof fn lemma_half_values<T: Float>(t: Seq<Entry<T>>, gs: Seq<Array<T>>, b: int, x: NodeId)
    requires
        ready(t, gs),
        0 <= b,
        b + 2 <= t.len() <= usize::MAX,
        t[b].step == Step::<T>::RmsNorm(x),
        t[b + 1].step == Step::<T>::QuantiseActs(b as usize),
    ensures
        x < b,
        t[b].value == rmsnorm_of(t[x as int].value),
        t[b].value.dims == t[x as int].value.dims,
        t[b + 1].value == restored_acts(t[b].value),
        t[b + 1].value.dims == t[b].value.dims,
{
    reveal(ready);
    assert(entry_ok(t, b));
    assert(entry_ok(t, b + 1));
}

/// What the attention half passes back to its input.
pub open spec fn attended_grad_at<T: Float>(
    t: Seq<Entry<T>>,
    x: NodeId,
    heads: Seq<AttentionHeadVars>,
    scale: T,
    g: Array<T>,
) -> Array<T> {
    let v = t[x as int].value;
    add_of(
        g,
        rmsnorm_grad_of(heads_grad_at(t, rmsnorm_of(v), heads, scale, g, heads.len()), v),
    )
}

/// The sweep over the attention half of a block.
proof fn lemma_attended_sweep<T: Float>(
    t: Seq<Entry<T>>,
    gs: Seq<Array<T>>,
    b: int,
    x: NodeId,
    heads: Seq<AttentionHeadVars>,
    scale: T,
)
    requires
        ready(t, gs),
        heads.len() >= 1,
        attended_made(t, b, x, heads, scale),
        heads_apart(b, x, heads),
        all_untouched(gs, b, b + 18 * heads.len() + 1),
    ensures
        ({
            let n = heads.len();
            let r = sweep(t, gs, b + 18 * n + 2, b);
            let g = gs[b + 18 * n + 1];
            let v = rmsnorm_of(t[x as int].value);
            &&& ready(t, r)
            &&& x < b
            &&& fit(attended_grad_at(t, x, heads, scale, g), t[x as int].value.dims)
            &&& r[x as int] == add_of(gs[x as int], attended_grad_at(t, x, heads, scale, g))
            &&& forall|i: int| 0 <= i < n ==> #[trigger] added_at(r, gs, t, heads, scale, v, g, i)
            &&& forall|j: int|
                0 <= j < b && j != x && no_weight(j, heads, n) ==> #[trigger] r[j] == gs[j]
        }),
{
    let n = heads.len();
    let k = b + 18 * n + 1;
    let g = gs[k];
    let q = (b + 1) as usize;
    lemma_half_values(t, gs, b, x);
    let v = t[b].value;
    assert(untouched(gs, b + 18 * n) && untouched(gs, b) && untouched(gs, b + 1));
    lemma_add_pass(t, gs, k, x, (b + 18 * n) as usize);
    let g1 = sweep(t, gs, k + 1, k);
    assert forall|j: int| b <= j < b + 18 * n implies #[trigger] untouched(g1, j) by {
        assert(untouched(gs, j));
        assert(g1[j] == gs[j]);
    }
    assert(untouched(g1, b) && untouched(g1, b + 1));
    lemma_heads_apart_up(b, x, heads);
    assert forall|j: int| b + 2 <= j < b + 2 + 18 * n - 2 implies #[trigger] untouched(g1, j) by {}
    lemma_heads_sweep(t, g1, b + 2, q, heads, scale, v, n);
    let g2 = sweep(t, g1, b + 18 * n + 1, b + 2);
    let hg = heads_grad_at(t, v, heads, scale, g, n);
    lemma_fresh_sum(t, g1, b + 1, hg);
    assert(g2[b + 1] == hg);
    assert(g2[b] == g1[b]) by {
        assert(no_weight(b, heads, n)) by {
            assert forall|i: int| 0 <= i < n implies !#[trigger] is_weight(b, heads[i]) by {
                assert(head_apart(b, x, heads[i]));
            }
        }
    }
    lemma_acts_pass(t, g2, b + 1, b as usize);
    let g3 = sweep(t, g2, b + 2, b + 1);
    assert(g3[b] == hg);
    lemma_rmsnorm_add(t, g3, b, x);
    let r = sweep(t, g3, b + 1, b);
    lemma_sweep_split(t, gs, k + 1, k, b);
    lemma_sweep_split(t, g1, k, b + 2, b);
    lemma_sweep_split(t, g2, b + 2, b + 1, b);
    assert(no_weight(x as int, heads, n)) by {
        assert forall|i: int| 0 <= i < n implies !#[trigger] is_weight(x as int, heads[i]) by {
            assert(head_apart(b, x, heads[i]));
        }
    }
    assert(g3[x as int] == g2[x as int] && g2[x as int] == g1[x as int]);
    lemma_three_terms(t, gs, x, g, rmsnorm_grad_of(hg, t[x as int].value));
    assert forall|i: int| 0 <= i < n implies #[trigger] added_at(
        r,
        gs,
        t,
        heads,
        scale,
        v,
        g,
        i,
    ) by {
        assert(added_at(g2, g1, t, heads, scale, v, g, i));
        let o = heads[i];
        assert(head_apart(b, x, heads[i]));
        assert forall|j: int| #[trigger] is_weight(j, o) implies r[j] == g2[j] && g1[j]
            == gs[j] by {
            assert(r[j] == g3[j]);
            assert(g3[j] == g2[j]);
            assert(g1[j] == gs[j]);
        }
        assert(is_weight(o.w_q.id as int, o) && is_weight(o.w_k.id as int, o));
        assert(is_weight(o.w_v.id as int, o) && is_weight(o.w_o.id as int, o));
    }
    assert forall|j: int| 0 <= j < b && j != x && no_weight(j, heads, n) implies #[trigger] r[j]
        == gs[j] by {
        assert(r[j] == g3[j]);
        assert(g3[j] == g2[j]);
        assert(g2[j] == g1[j]);
        assert(g1[j] == gs[j]);
    }
}

/// Heads whose weights lie before node `b` are apart from the two nodes from `b` on.
proof fn lemma_heads_apart_up(b: int, x: NodeId, heads: Seq<AttentionHeadVars>)
    requires
        0 <= b,
        b + 2 <= usize::MAX,
        heads_apart(b, x, heads),
    ensures
        heads_apart(b + 2, (b + 1) as usize, heads),
{
    assert forall|i: int| 0 <= i < heads.len() implies #[trigger] head_apart(
        b + 2,
        (b + 1) as usize,
        heads[i],
    ) by {
        assert(head_apart(b, x, heads[i]));
    }
}

/// The nodes of the feed-forward half of a block.
pub open spec fn fed_made<T>(
    t: Seq<Entry<T>>,
    b: int,
    x: NodeId,
    gate: NodeId,
    up: NodeId,
    down: NodeId,
) -> bool {
    &&& 0 <= b
    &&& b + 12 <= t.len() <= usize::MAX
    &&& t[b].step == Step::<T>::RmsNorm(x)
    &&& ffn_made(t, b + 1, b as usize, gate, up, down)
    &&& t[b + 11].step == Step::<T>::Add(x, (b + 10) as usize)
}

/// The recorded steps of the feed-forward half are its nodes.
proof fn lemma_fed_made<T>(
    t: Seq<Entry<T>>,
    b: int,
    x: NodeId,
    gate: NodeId,
    up: NodeId,
    down: NodeId,
)
    requires
        made_by(t, b, fed_steps(b, x, gate, up, down)),
        t.len() <= usize::MAX,
    ensures
        fed_steps::<T>(b, x, gate, up, down).len() == 12,
        fed_made(t, b, x, gate, up, down),
{
    let own = ffn_steps::<T>(b + 1, b as usize, gate, up, down);
    assert(own.len() == 10);
    let first = seq![Step::<T>::RmsNorm(x)];
    let last = seq![Step::<T>::Add(x, (b + 10) as usize)];
    assert(fed_steps::<T>(b, x, gate, up, down) =~= first + (own + last));
    lemma_made_split(t, b, first, own + last);
    lemma_made_split(t, b + 1, own, last);
    assert(t[b + 0].step == first[0]);
    assert(t[b + 1 + own.len() + 0].step == last[0]);
    lemma_ffn_made(t, b + 1, b as usize, gate, up, down);
}

/// The weights of a feed-forward layer are three, and lie before node `b`.
pub open spec fn ffn_apart(b: int, x: NodeId, gate: NodeId, up: NodeId, down: NodeId) -> bool {
    &&& x < b && gate < b && up < b && down < b
    &&& x != gate && x != up && x != down
    &&& gate != up && gate != down && up != down
}

/// The gradients of a feed-forward layer over normalised rows.
pub open spec fn fed_grads_at<T: Float>(
    t: Seq<Entry<T>>,
    x: NodeId,
    gate: NodeId,
    up: NodeId,
    down: NodeId,
    g: Array<T>,
) -> FfnGrads<Array<T>> {
    let w = ffn_weights(t, gate, up, down);
    let v = rmsnorm_of(t[x as int].value);
    ffn_grads_bit_of::<Tensor<T>>(g, v, ffn_saved_bit_of::<Tensor<T>>(v, w), w)
}

/// The sweep over the feed-forward half of a block.
proof fn lemma_fed_sweep<T: Float>(
    t: Seq<Entry<T>>,
    gs: Seq<Array<T>>,
    b: int,
    x: NodeId,
    gate: NodeId,
    up: NodeId,
    down: NodeId,
)
    requires
        ready(t, gs),
        fed_made(t, b, x, gate, up, down),
        ffn_apart(b, x, gate, up, down),
        all_untouched(gs, b, b + 11),
    ensures
        ({
            let r = sweep(t, gs, b + 12, b);
            let g = gs[b + 11];
            let f = fed_grads_at(t, x, gate, up, down, g);
            let total = add_of(g, rmsnorm_grad_of(f.grad_x, t[x as int].value));
            &&& ready(t, r)
            &&& fit(total, t[x as int].value.dims)
            &&& r[x as int] == add_of(gs[x as int], total)
            &&& untouched(gs, x as int) ==> r[x as int] == total
            &&& r[gate as int] == add_of(gs[gate as int], f.grad_w_gate)
            &&& r[up as int] == add_of(gs[up as int], f.grad_w_up)
            &&& r[down as int] == add_of(gs[down as int], f.grad_w_down)
            &&& forall|j: int|
                0 <= j < b && j != x && j != gate && j != up && j != down ==> #[trigger] r[j]
                    == gs[j]
        }),
{
    let g = gs[b + 11];
    lemma_half_values(t, gs, b, x);
    assert(untouched(gs, b + 10) && untouched(gs, b));
    lemma_add_pass(t, gs, b + 11, x, (b + 10) as usize);
    let g1 = sweep(t, gs, b + 12, b + 11);
    assert forall|j: int| b <= j < b + 10 implies #[trigger] untouched(g1, j) by {
        assert(untouched(gs, j));
        assert(g1[j] == gs[j]);
    }
    assert(untouched(g1, b));
    lemma_ffn_sweep(t, g1, b + 1, b as usize, gate, up, down);
    let g2 = sweep(t, g1, b + 11, b + 1);
    let f = fed_grads_at(t, x, gate, up, down, g);
    assert(f == ffn_grads_at(t, b as usize, gate, up, down, g));
    lemma_fresh_sum(t, g1, b, f.grad_x);
    lemma_rmsnorm_add(t, g2, b, x);
    let r = sweep(t, g2, b + 1, b);
    lemma_sweep_split(t, gs, b + 12, b + 11, b);
    lemma_sweep_split(t, g1, b + 11, b + 1, b);
    assert(g2[x as int] == g1[x as int]);
    lemma_three_terms(t, gs, x, g, rmsnorm_grad_of(f.grad_x, t[x as int].value));
    assert(g1[gate as int] == gs[gate as int] && g1[up as int] == gs[up as int] && g1[down as int]
        == gs[down as int]);
    assert(r[gate as int] == g2[gate as int] && r[up as int] == g2[up as int] && r[down as int]
        == g2[down as int]);
    assert forall|j: int|
        0 <= j < b && j != x && j != gate && j != up && j != down implies #[trigger] r[j]
        == gs[j] by {
        assert(r[j] == g2[j]);
        assert(g2[j] == g1[j]);
        assert(g1[j] == gs[j]);
    }
}

/// The weights of some heads on a tape.
pub open spec fn heads_weights<T>(t: Seq<Entry<T>>, heads: Seq<AttentionHeadVars>) -> Seq<
    HeadWeights<Array<T>>,
> {
    Seq::new(heads.len(), |i: int| head_weights(t, heads[i]))
}

/// What a head gives, on its last node.
proof fn lemma_head_out<T: Float>(
    t: Seq<Entry<T>>,
    gs: Seq<Array<T>>,
    b: int,
    x: NodeId,
    h: AttentionHeadVars,
    scale: T,
    v: Array<T>,
)
    requires
        ready(t, gs),
        head_made(t, b, x, h, scale),
        t[x as int].value == restored_acts(v),
    ensures
        t[b + 16].value == head_out_bit_of::<Tensor<T>>(v, head_weights(t, h), scale),
{
    lemma_head_values(t, gs, b, x, h, scale, v);
    reveal(ready);
    reveal(head_made);
    assert(entry_ok(t, b + 15));
    assert(entry_ok(t, b + 16));
}

/// The sum of the first `n` heads, on its node.
proof fn lemma_heads_value<T: Float>(
    t: Seq<Entry<T>>,
    gs: Seq<Array<T>>,
    b: int,
    x: NodeId,
    heads: Seq<AttentionHeadVars>,
    scale: T,
    v: Array<T>,
    n: nat,
)
    requires
        ready(t, gs),
        t.len() <= usize::MAX,
        0 <= b,
        1 <= n <= heads.len(),
        heads_made(t, b, x, heads, scale, n),
        t[x as int].value == restored_acts(v),
    ensures
        t[b + 18 * n - 2].value == heads_sum_bit_of::<Tensor<T>>(
            v,
            heads_weights(t, heads),
            scale,
            n,
        ),
    decreases n,
{
    let ws = heads_weights(t, heads);
    if n == 1 {
        lemma_one_head(t, b, x, heads, scale);
        lemma_head_out(t, gs, b, x, heads[0], scale, v);
        assert(ws[0] == head_weights(t, heads[0]));
    } else {
        let p = (n - 1) as nat;
        let at = b + 18 * n - 19;
        lemma_heads_peel(t, b, x, heads, scale, n);
        lemma_heads_value(t, gs, b, x, heads, scale, v, p);
        lemma_head_out(t, gs, at, x, heads[n - 1], scale, v);
        assert(ws[n - 1] == head_weights(t, heads[n - 1]));
        lemma_sum_value(t, gs, at + 17);
    }
}

/// The value of a sum.
proof fn lemma_sum_value<T: Float>(t: Seq<Entry<T>>, gs: Seq<Array<T>>, k: int)
    requires
        ready(t, gs),
        0 <= k < t.len(),
        t[k].step is Add,
    ensures
        t[k].value == add_of(
            t[t[k].step->Add_0 as int].value,
            t[t[k].step->Add_1 as int].value,
        ),
{
    reveal(ready);
    assert(entry_ok(t, k));
}

/// What the heads pass back is what their backward passes give together.
proof fn lemma_heads_grad_same<T: Float>(
    t: Seq<Entry<T>>,
    v: Array<T>,
    heads: Seq<AttentionHeadVars>,
    scale: T,
    g: Array<T>,
    svs: Seq<AttentionHeadSaved<Array<T>>>,
    n: nat,
)
    requires
        1 <= n <= heads.len(),
        svs.len() == heads.len(),
        forall|i: int|
            0 <= i < heads.len() ==> #[trigger] svs[i] == head_saved_bit_of::<Tensor<T>>(
                v,
                heads_weights(t, heads)[i],
                scale,
            ),
    ensures
        heads_grad_at(t, v, heads, scale, g, n) == heads_grad_bit_of::<Tensor<T>>(
            g,
            v,
            svs,
            heads_weights(t, heads),
            scale,
            n,
        ),
    decreases n,
{
    reveal(head_grads_at);
    let ws = heads_weights(t, heads);
    assert(ws[n - 1] == head_weights(t, heads[n - 1]));
    assert(svs[n - 1] == head_saved_bit_of::<Tensor<T>>(v, ws[n - 1], scale));
    if n > 1 {
        lemma_heads_grad_same(t, v, heads, scale, g, svs, (n - 1) as nat);
    }
}

/// The nodes of a block.
#[verifier::opaque]
pub open spec fn block_made<T>(t: Seq<Entry<T>>, b: int, x: NodeId, w: BlockWeights, scale: T) -> bool {
    let mid = b + 18 * w.heads@.len() + 2;
    &&& attended_made(t, b, x, w.heads@, scale)
    &&& fed_made(
        t,
        mid,
        (mid - 1) as usize,
        w.ffn_gate_w.id,
        w.ffn_up_w.id,
        w.ffn_down_w.id,
    )
}

/// The recorded steps of a block are its nodes.
pub proof fn lemma_block_made<T>(t: Seq<Entry<T>>, b: int, x: NodeId, w: BlockWeights, scale: T)
    requires
        w.heads@.len() >= 1,
        made_by(t, b, block_steps(b, x, w, scale)),
        t.len() <= usize::MAX,
    ensures
        block_steps(b, x, w, scale).len() == 18 * w.heads@.len() + 14,
        block_made(t, b, x, w, scale),
{
    reveal(block_made);
    let first = attended_steps(b, x, w.heads@, scale);
    let mid = b + first.len();
    let second = fed_steps::<T>(
        mid,
        (mid - 1) as usize,
        w.ffn_gate_w.id,
        w.ffn_up_w.id,
        w.ffn_down_w.id,
    );
    lemma_made_split(t, b, first, second);
    lemma_attended_made(t, b, x, w.heads@, scale);
    lemma_fed_made(
        t,
        mid,
        (mid - 1) as usize,
        w.ffn_gate_w.id,
        w.ffn_up_w.id,
        w.ffn_down_w.id,
    );
}

/// The weights of a block lie before node `b`, and no two are one node.
pub open spec fn block_apart(b: int, x: NodeId, w: BlockWeights) -> bool {
    &&& heads_apart(b, x, w.heads@)
    &&& ffn_apart(b, x, w.ffn_gate_w.id, w.ffn_up_w.id, w.ffn_down_w.id)
    &&& no_weight(w.ffn_gate_w.id as int, w.heads@, w.heads@.len())
    &&& no_weight(w.ffn_up_w.id as int, w.heads@, w.heads@.len())
    &&& no_weight(w.ffn_down_w.id as int, w.heads@, w.heads@.len())
}

/// The node is a weight of a block.
pub open spec fn in_block(j: int, w: BlockWeights) -> bool {
    ||| j == w.ffn_gate_w.id
    ||| j == w.ffn_up_w.id
    ||| j == w.ffn_down_w.id
    ||| !no_weight(j, w.heads@, w.heads@.len())
}

/// What the sweep over a block does to the gradients before node `b`.
pub open spec fn block_swept<T: Float>(
    r: Seq<Array<T>>,
    gs: Seq<Array<T>>,
    t: Seq<Entry<T>>,
    b: int,
    x: NodeId,
    w: BlockWeights,
    scale: T,
    g: Array<T>,
) -> bool {
    let (gate, up, down) = (w.ffn_gate_w.id, w.ffn_up_w.id, w.ffn_down_w.id);
    let m = (b + 18 * w.heads@.len() + 1) as usize;
    let f = fed_grads_at(t, m, gate, up, down, g);
    let mid = add_of(g, rmsnorm_grad_of(f.grad_x, t[m as int].value));
    let total = attended_grad_at(t, x, w.heads@, scale, mid);
    &&& fit(total, t[x as int].value.dims)
    &&& r[x as int] == add_of(gs[x as int], total)
    &&& r[gate as int] == add_of(gs[gate as int], f.grad_w_gate)
    &&& r[up as int] == add_of(gs[up as int], f.grad_w_up)
    &&& r[down as int] == add_of(gs[down as int], f.grad_w_down)
    &&& forall|i: int|
        0 <= i < w.heads@.len() ==> #[trigger] added_at(
            r,
            gs,
            t,
            w.heads@,
            scale,
            rmsnorm_of(t[x as int].value),
            mid,
            i,
        )
    &&& forall|j: int| 0 <= j < b && j != x && !in_block(j, w) ==> #[trigger] r[j] == gs[j]
}

/// The sweep over a block.
pub proof fn lemma_block_sweep<T: Float>(
    t: Seq<Entry<T>>,
    gs: Seq<Array<T>>,
    b: int,
    x: NodeId,
    w: BlockWeights,
    scale: T,
)
    requires
        ready(t, gs),
        w.heads@.len() >= 1,
        block_made(t, b, x, w, scale),
        block_apart(b, x, w),
        all_untouched(gs, b, b + 18 * w.heads@.len() + 13),
    ensures
        x < b,
        b + 18 * w.heads@.len() + 14 <= t.len(),
        ready(t, sweep(t, gs, b + 18 * w.heads@.len() + 14, b)),
        block_swept(
            sweep(t, gs, b + 18 * w.heads@.len() + 14, b),
            gs,
            t,
            b,
            x,
            w,
            scale,
            gs[b + 18 * w.heads@.len() + 13],
        ),
{
    let n = w.heads@.len();
    let mid = b + 18 * n + 2;
    let m = (mid - 1) as usize;
    let (gate, up, down) = (w.ffn_gate_w.id, w.ffn_up_w.id, w.ffn_down_w.id);
    let g = gs[mid + 11];
    reveal(block_made);
    assert forall|j: int| mid <= j < mid + 11 implies #[trigger] untouched(gs, j) by {}
    assert(untouched(gs, mid - 1));
    lemma_fed_sweep(t, gs, mid, m, gate, up, down);
    let g1 = sweep(t, gs, mid + 12, mid);
    assert forall|j: int| b <= j < mid - 1 implies #[trigger] untouched(g1, j) by {
        assert(untouched(gs, j));
        assert(g1[j] == gs[j]);
    }
    lemma_attended_sweep(t, g1, b, x, w.heads@, scale);
    let r = sweep(t, g1, mid, b);
    lemma_sweep_split(t, gs, mid + 12, mid, b);
    assert(g1[x as int] == gs[x as int]);
    assert(r[gate as int] == g1[gate as int]);
    assert(r[up as int] == g1[up as int]);
    assert(r[down as int] == g1[down as int]);
    let v = rmsnorm_of(t[x as int].value);
    assert forall|i: int| 0 <= i < n implies #[trigger] added_at(
        r,
        gs,
        t,
        w.heads@,
        scale,
        v,
        g1[mid - 1],
        i,
    ) by {
        assert(added_at(r, g1, t, w.heads@, scale, v, g1[mid - 1], i));
        lemma_other_weights(gs, g1, mid, m, w, b, x, i);
    }
    assert forall|j: int| 0 <= j < b && j != x && !in_block(j, w) implies #[trigger] r[j]
        == gs[j] by {
        assert(r[j] == g1[j]);
        assert(g1[j] == gs[j]);
    }
}

/// The weights of a head are left alone by the feed-forward half.
proof fn lemma_other_weights<T: Float>(
    gs: Seq<Array<T>>,
    g1: Seq<Array<T>>,
    mid: int,
    m: NodeId,
    w: BlockWeights,
    b: int,
    x: NodeId,
    i: int,
)
    requires
        0 <= i < w.heads@.len(),
        b < mid,
        m >= b,
        block_apart(b, x, w),
        forall|j: int|
            0 <= j < mid && j != m && j != w.ffn_gate_w.id && j != w.ffn_up_w.id && j
                != w.ffn_down_w.id ==> #[trigger] g1[j] == gs[j],
    ensures
        g1[w.heads@[i].w_q.id as int] == gs[w.heads@[i].w_q.id as int],
        g1[w.heads@[i].w_k.id as int] == gs[w.heads@[i].w_k.id as int],
        g1[w.heads@[i].w_v.id as int] == gs[w.heads@[i].w_v.id as int],
        g1[w.heads@[i].w_o.id as int] == gs[w.heads@[i].w_o.id as int],
{
    let o = w.heads@[i];
    assert(head_apart(b, x, w.heads@[i]));
    assert(!is_weight(w.ffn_gate_w.id as int, w.heads@[i]));
    assert(!is_weight(w.ffn_up_w.id as int, w.heads@[i]));
    assert(!is_weight(w.ffn_down_w.id as int, w.heads@[i]));
}

/// The gradient in the middle of a block, from the values on a tape.
pub open spec fn block_mid_at<T: Float>(t: Seq<Entry<T>>, b: int, w: BlockWeights, g: Array<T>) -> Array<T> {
    let m = (b + 18 * w.heads@.len() + 1) as usize;
    let f = fed_grads_at(t, m, w.ffn_gate_w.id, w.ffn_up_w.id, w.ffn_down_w.id, g);
    add_of(g, rmsnorm_grad_of(f.grad_x, t[m as int].value))
}

/// What a block passes back to its input, from the values on a tape.
#[verifier::opaque]
pub open spec fn block_total_at<T: Float>(
    t: Seq<Entry<T>>,
    b: int,
    x: NodeId,
    w: BlockWeights,
    scale: T,
    g: Array<T>,
) -> Array<T> {
    attended_grad_at(t, x, w.heads@, scale, block_mid_at(t, b, w, g))
}

/// The weights of the feed-forward layer of a block on a tape.
pub open spec fn block_ffn_weights<T>(t: Seq<Entry<T>>, w: BlockWeights) -> FfnWeights<Array<T>> {
    ffn_weights(t, w.ffn_gate_w.id, w.ffn_up_w.id, w.ffn_down_w.id)
}

/// The activations in the middle of a block and after it, on their nodes.
pub proof fn lemma_block_values<T: Float>(
    t: Seq<Entry<T>>,
    gs: Seq<Array<T>>,
    b: int,
    x: NodeId,
    w: BlockWeights,
    scale: T,
)
    requires
        ready(t, gs),
        w.heads@.len() >= 1,
        block_made(t, b, x, w, scale),
    ensures
        ({
            let n = w.heads@.len();
            let v = t[x as int].value;
            let ws = heads_weights(t, w.heads@);
            &&& x < b
            &&& t[b + 18 * n + 1].value == block_mid_bit_of::<Tensor<T>>(v, ws, scale)
            &&& t[b + 18 * n + 13].value == block_out_bit_of::<Tensor<T>>(
                v,
                ws,
                block_ffn_weights(t, w),
                scale,
            )
            &&& t[b + 18 * n + 13].value.dims == v.dims
        }),
{
    let n = w.heads@.len();
    let mid = b + 18 * n + 2;
    let m = (mid - 1) as usize;
    reveal(block_made);
    lemma_half_values(t, gs, b, x);
    lemma_heads_value(t, gs, b + 2, (b + 1) as usize, w.heads@, scale, t[b].value, n);
    lemma_sum_value(t, gs, b + 18 * n + 1);
    lemma_half_values(t, gs, mid, m);
    lemma_ffn_values(
        t,
        gs,
        mid + 1,
        mid as usize,
        w.ffn_gate_w.id,
        w.ffn_up_w.id,
        w.ffn_down_w.id,
    );
    lemma_projection_value(t, gs, mid + 9, (mid + 8) as usize, w.ffn_down_w.id);
    lemma_sum_value(t, gs, mid + 11);
}

/// The value of a projection.
proof fn lemma_projection_value<T: Float>(
    t: Seq<Entry<T>>,
    gs: Seq<Array<T>>,
    b: int,
    x: NodeId,
    w: NodeId,
)
    requires
        ready(t, gs),
        0 <= b,
        b + 2 <= t.len() <= usize::MAX,
        t[b].step == Step::<T>::QuantiseWeights(w),
        t[b + 1].step == Step::<T>::MatMul(x, b as usize),
    ensures
        t[b + 1].value == matmul_of(
            t[x as int].value,
            ternary_weights(t[w as int].value),
        ),
{
    reveal(ready);
    assert(entry_ok(t, b));
    assert(entry_ok(t, b + 1));
}

/// The gradients `d` of a head are those of its backward pass.
pub open spec fn same_weights<T: Float>(d: AttentionHeadGrads<Array<T>>, g: HeadWeightGrads<Tensor<T>>) -> bool {
    &&& d.grad_w_q == g.grad_w_q@
    &&& d.grad_w_k == g.grad_w_k@
    &&& d.grad_w_v == g.grad_w_v@
    &&& d.grad_w_o == g.grad_w_o@
}

/// The backward pass of a block gives what the sweep over its nodes adds.
pub proof fn lemma_block_match<T: Float>(
    t: Seq<Entry<T>>,
    gs: Seq<Array<T>>,
    b: int,
    x: NodeId,
    w: BlockWeights,
    scale: T,
    g: Array<T>,
    sv: BlockSaved<Tensor<T>>,
    d: BlockGrads<Tensor<T>>,
)
    requires
        ready(t, gs),
        w.heads@.len() >= 1,
        block_made(t, b, x, w, scale),
        block_saved_bit_ok(
            sv,
            t[x as int].value,
            heads_weights(t, w.heads@),
            block_ffn_weights(t, w),
            scale,
        ),
        block_grads_bit_ok(
            d,
            g,
            t[x as int].value,
            sv,
            heads_weights(t, w.heads@),
            block_ffn_weights(t, w),
            scale,
            w.heads@.len(),
        ),
    ensures
        ({
            let m = (b + 18 * w.heads@.len() + 1) as usize;
            let f = fed_grads_at(t, m, w.ffn_gate_w.id, w.ffn_up_w.id, w.ffn_down_w.id, g);
            let mid = block_mid_at(t, b, w, g);
            let v = rmsnorm_of(t[x as int].value);
            &&& d.grad_x@ == block_total_at(t, b, x, w, scale, g)
            &&& d.grad_w_gate@ == f.grad_w_gate
            &&& d.grad_w_up@ == f.grad_w_up
            &&& d.grad_w_down@ == f.grad_w_down
            &&& forall|i: int|
                0 <= i < w.heads@.len() ==> same_weights(
                    head_grads_at(t, v, w.heads@[i], scale, mid),
                    #[trigger] d.head_grads@[i],
                )
        }),
{
    let n = w.heads@.len();
    let v = rmsnorm_of(t[x as int].value);
    let ws = heads_weights(t, w.heads@);
    let svs = saved_vals(sv.head_saveds@);
    lemma_block_values(t, gs, b, x, w, scale);
    reveal(block_made);
    reveal(block_total_at);
    let mid = block_mid_at(t, b, w, g);
    assert(mid == block_mid_grad_bit_of::<Tensor<T>>(
        g,
        sv.x1.val(),
        sv.y2_pre.val(),
        ffn_saved_val(sv.ffn_saved),
        block_ffn_weights(t, w),
    ));
    assert forall|i: int| 0 <= i < n implies #[trigger] svs[i] == head_saved_bit_of::<Tensor<T>>(
        v,
        ws[i],
        scale,
    ) by {
        assert(saved_val(sv.head_saveds@[i]) == head_saved_bit_of::<Tensor<T>>(v, ws[i], scale));
    }
    lemma_heads_grad_same(t, v, w.heads@, scale, mid, svs, n);
    assert forall|i: int| 0 <= i < n implies same_weights(
        head_grads_at(t, v, w.heads@[i], scale, mid),
        #[trigger] d.head_grads@[i],
    ) by {
        reveal(head_grads_at);
        assert(svs[i] == head_saved_bit_of::<Tensor<T>>(v, ws[i], scale));
        assert(ws[i] == head_weights(t, w.heads@[i]));
        assert(weight_grads_val(d.head_grads@[i]) == weights_only(
            head_grads_bit_of::<Tensor<T>>(mid, v, svs[i], ws[i], scale),
        ));
    }
}

} // verus!
