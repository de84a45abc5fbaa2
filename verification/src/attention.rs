//! Multi-head causal self-attention through quantised projections.
use crate::autograd::{
    lemma_records_concat, lemma_records_none, lemma_records_push, Graph, NodeId, Step, Tape, Var,
};
use crate::bitlinear::{restored_acts, ternary_weights};
use crate::block::AttentionHeadVars;
use crate::float::{
    deterministic, fadd, fcount, fdiv, fdot, fmul, fone, fsqrt, fzero, Float, ONE,
};
use crate::layout::HeadOf;
use crate::ops::{causal_mask_of, rope_of, softmax_of};
use crate::tensor::{add_of, flat, lemma_flat_len, matmul_of, scale_of, transpose_of, Array};
use vstd::prelude::*;

verus! {

/// The values of a head's weights on a tape.
pub open spec fn head_arrays<T: Float>(t: Graph<T>, h: AttentionHeadVars) -> HeadOf<Array<T>> {
    HeadOf {
        w_q: t.value(h.w_q),
        w_k: t.value(h.w_k),
        w_v: t.value(h.w_v),
        w_o: t.value(h.w_o),
    }
}

/// Activations times ternary weights.
pub open spec fn linear_of<T: Float>(x: Array<T>, w: Array<T>) -> Array<T> {
    matmul_of(x, ternary_weights(w))
}

/// The factor put on the scores of a head.
pub open spec fn score_scale<T: Float>(head_dim: usize) -> T {
    fdiv(fone::<T>(), fsqrt(fcount::<T>(head_dim)))
}

/// The attention weights of queries and keys: the masked and scaled scores put
/// through a softmax.
pub open spec fn attend_of<T: Float>(q: Array<T>, k: Array<T>, scale: T) -> Array<T> {
    softmax_of(causal_mask_of(scale_of(matmul_of(q, transpose_of(k)), scale)))
}

/// What one head makes of quantised activations.
pub open spec fn head_of<T: Float>(x: Array<T>, h: HeadOf<Array<T>>, scale: T) -> Array<T> {
    linear_of(
        restored_acts(
            matmul_of(
                attend_of(rope_of(linear_of(x, h.w_q)), rope_of(linear_of(x, h.w_k)), scale),
                linear_of(x, h.w_v),
            ),
        ),
        h.w_o,
    )
}

/// The sum of the first `n` heads, from the left.
pub open spec fn heads_of<T: Float>(
    x: Array<T>,
    heads: Seq<HeadOf<Array<T>>>,
    scale: T,
    n: nat,
) -> Array<T>
    decreases n,
{
    if n <= 1 {
        head_of(x, heads[0], scale)
    } else {
        add_of(heads_of(x, heads, scale, (n - 1) as nat), head_of(x, heads[n - 1], scale))
    }
}

/// Multi-head attention: the activations are quantised once and the heads' outputs summed.
pub open spec fn attention_of<T: Float>(
    x: Array<T>,
    heads: Seq<HeadOf<Array<T>>>,
    head_dim: usize,
) -> Array<T> {
    heads_of(restored_acts(x), heads, score_scale::<T>(head_dim), heads.len())
}

/// The values of all heads on a tape.
pub open spec fn all_heads<T: Float>(
    t: Graph<T>,
    heads: Seq<AttentionHeadVars>,
) -> Seq<HeadOf<Array<T>>> {
    Seq::new(heads.len(), |i: int| head_arrays(t, heads[i]))
}

/// The weights of a head fit activations of `m` rows and `n` columns.
pub open spec fn head_fits<T: Float>(
    t: Graph<T>,
    m: usize,
    n: usize,
    h: AttentionHeadVars,
) -> bool {
    let (q, k, v, o) = (
        t.value(h.w_q).dims,
        t.value(h.w_k).dims,
        t.value(h.w_v).dims,
        t.value(h.w_o).dims,
    );
    &&& t.has(h.w_q) && t.has(h.w_k) && t.has(h.w_v) && t.has(h.w_o)
    &&& q.len() == 2 && k.len() == 2 && v.len() == 2 && o.len() == 2
    &&& q[0] == n && k[0] == n && v[0] == n
    &&& q[1] == k[1] && q[1] % 2 == 0
    &&& o[0] == v[1]
    &&& m * q[1] <= usize::MAX && m * v[1] <= usize::MAX && m * o[1] <= usize::MAX && m * m
        <= usize::MAX
}

/// The weights of every head fit, and every head gives the same width.
pub open spec fn heads_fit<T: Float>(
    t: Graph<T>,
    m: usize,
    n: usize,
    heads: Seq<AttentionHeadVars>,
) -> bool {
    &&& heads.len() > 0
    &&& forall|i: int| 0 <= i < heads.len() ==> #[trigger] head_fits(t, m, n, heads[i])
    &&& forall|i: int|
        0 <= i < heads.len() ==> (#[trigger] t.value(heads[i].w_o)).dims[1] == t.value(
            heads[0].w_o,
        ).dims[1]
}

/// The steps of one projection that starts at node `b`.
pub open spec fn linear_steps<T>(b: int, x: NodeId, w: NodeId) -> Seq<Step<T>> {
    seq![Step::QuantiseWeights(w), Step::MatMul(x, b as usize)]
}

/// The steps of one rotated projection that starts at node `b`.
pub open spec fn rotated_steps<T>(b: int, x: NodeId, w: NodeId) -> Seq<Step<T>> {
    linear_steps(b, x, w).push(Step::Rope((b + 1) as usize))
}

/// The steps from queries and keys to attention weights that start at node `b`.
pub open spec fn attend_steps<T>(b: int, q: NodeId, k: NodeId, scale: T) -> Seq<Step<T>> {
    seq![
        Step::Transpose(k),
        Step::MatMul(q, b as usize),
        Step::MulScalar((b + 1) as usize, scale),
        Step::CausalMask((b + 2) as usize),
        Step::Softmax((b + 3) as usize),
    ]
}

/// The steps from attention weights to the head's output that start at node `b`.
pub open spec fn mix_steps<T>(b: int, attn: NodeId, v: NodeId, w: NodeId) -> Seq<Step<T>> {
    seq![Step::MatMul(attn, v), Step::QuantiseActs(b as usize)] + linear_steps(
        b + 2,
        (b + 1) as usize,
        w,
    )
}

/// The steps of one head that starts at node `b`.
pub open spec fn head_steps<T>(b: int, x: NodeId, h: AttentionHeadVars, scale: T) -> Seq<Step<T>> {
    rotated_steps(b, x, h.w_q.id) + rotated_steps(b + 3, x, h.w_k.id) + linear_steps(
        b + 6,
        x,
        h.w_v.id,
    ) + attend_steps(b + 8, (b + 2) as usize, (b + 5) as usize, scale) + mix_steps(
        b + 13,
        (b + 12) as usize,
        (b + 7) as usize,
        h.w_o.id,
    )
}

/// The steps of the first `n` heads over activations `x`, from node `b` on.
/// The last node holds the sum of the heads.
pub open spec fn heads_steps<T>(
    b: int,
    x: NodeId,
    heads: Seq<AttentionHeadVars>,
    scale: T,
    n: nat,
) -> Seq<Step<T>>
    decreases n,
{
    if n <= 1 {
        head_steps(b, x, heads[0], scale)
    } else {
        let before = heads_steps(b, x, heads, scale, (n - 1) as nat);
        let at = b + before.len();
        (before + head_steps(at, x, heads[n - 1], scale)).push(
            Step::Add((at - 1) as usize, (at + 16) as usize),
        )
    }
}

/// The steps of attention over node `x`, from node `b` on.
pub open spec fn attention_steps<T>(
    b: int,
    x: NodeId,
    heads: Seq<AttentionHeadVars>,
    scale: T,
) -> Seq<Step<T>> {
    seq![Step::QuantiseActs(x)] + heads_steps(b + 1, b as usize, heads, scale, heads.len())
}

/// Activations times ternary weights.
pub(crate) fn linear<T: Float>(tape: &mut Tape<T>, x: Var, w: Var) -> (r: Var)
    requires
        old(tape).wf(),
        old(tape)@.has(x),
        old(tape)@.has(w),
        old(tape)@.value(x).dims.len() == 2,
        old(tape)@.value(w).dims.len() == 2,
        old(tape)@.value(x).dims[1] == old(tape)@.value(w).dims[0],
        old(tape)@.value(x).dims[0] * old(tape)@.value(w).dims[1] <= usize::MAX,
    ensures
        r.id == old(tape)@.nodes.len() + 1,
        final(tape)@.has(r),
        old(tape)@.records(
            final(tape)@,
            linear_steps(old(tape)@.nodes.len() as int, x.id, w.id),
        ),
        final(tape)@.value(r).dims == seq![
            old(tape)@.value(x).dims[0],
            old(tape)@.value(w).dims[1],
        ],
        deterministic::<T>() ==> final(tape)@.value(r) == linear_of(
            old(tape)@.value(x),
            old(tape)@.value(w),
        ),
{
    let ghost t0 = tape@;
    proof {
        lemma_records_none(t0);
    }
    let q = w.quantise_weights_ste(tape);
    let ghost t1 = tape@;
    proof {
        lemma_records_push(t0, t0, t1, seq![], Step::QuantiseWeights(w.id));
        assert(t1.nodes[x.id as int] == t0.nodes[x.id as int]);
    }
    let r = x.matmul(tape, q);
    proof {
        lemma_records_push(
            t0,
            t1,
            tape@,
            seq![].push(Step::QuantiseWeights(w.id)),
            Step::MatMul(x.id, q.id),
        );
        assert(seq![].push(Step::<T>::QuantiseWeights(w.id)).push(Step::MatMul(x.id, q.id))
            =~= linear_steps(t0.nodes.len() as int, x.id, w.id));
    }
    r
}

/// A projection with each row rotated by the angles of its position.
fn rotated<T: Float>(tape: &mut Tape<T>, x: Var, w: Var) -> (r: Var)
    requires
        old(tape).wf(),
        old(tape)@.has(x),
        old(tape)@.has(w),
        old(tape)@.value(x).dims.len() == 2,
        old(tape)@.value(w).dims.len() == 2,
        old(tape)@.value(x).dims[1] == old(tape)@.value(w).dims[0],
        old(tape)@.value(w).dims[1] % 2 == 0,
        old(tape)@.value(x).dims[0] * old(tape)@.value(w).dims[1] <= usize::MAX,
    ensures
        r.id == old(tape)@.nodes.len() + 2,
        final(tape)@.has(r),
        old(tape)@.records(
            final(tape)@,
            rotated_steps(old(tape)@.nodes.len() as int, x.id, w.id),
        ),
        final(tape)@.value(r).dims == seq![
            old(tape)@.value(x).dims[0],
            old(tape)@.value(w).dims[1],
        ],
        deterministic::<T>() ==> final(tape)@.value(r) == rope_of(
            linear_of(old(tape)@.value(x), old(tape)@.value(w)),
        ),
{
    let ghost t0 = tape@;
    proof {
        lemma_records_none(t0);
    }
    let y = linear(tape, x, w);
    let ghost t1 = tape@;
    let ghost s1 = Seq::<Step<T>>::empty() + linear_steps(t0.nodes.len() as int, x.id, w.id);
    proof {
        lemma_records_concat(t0, t0, t1, Seq::<Step<T>>::empty(), linear_steps(t0.nodes.len() as int, x.id, w.id));
    }
    let r = y.rope(tape);
    let ghost t2 = tape@;
    let ghost s2 = s1.push(Step::Rope(y.id));
    proof {
        lemma_records_push(t0, t1, t2, s1, Step::Rope(y.id));
    }
    proof {
        assert(s2 =~= rotated_steps(t0.nodes.len() as int, x.id, w.id));
    }
    r
}

/// The attention weights of rotated queries and keys.
fn attend<T: Float>(tape: &mut Tape<T>, q: Var, k: Var, scale: T) -> (r: Var)
    requires
        old(tape).wf(),
        old(tape)@.has(q),
        old(tape)@.has(k),
        old(tape)@.value(q).dims.len() == 2,
        old(tape)@.value(k).dims.len() == 2,
        old(tape)@.value(q).dims[1] == old(tape)@.value(k).dims[1],
        old(tape)@.value(q).dims[0] * old(tape)@.value(k).dims[0] <= usize::MAX,
    ensures
        r.id == old(tape)@.nodes.len() + 4,
        final(tape)@.has(r),
        old(tape)@.records(
            final(tape)@,
            attend_steps(old(tape)@.nodes.len() as int, q.id, k.id, scale),
        ),
        final(tape)@.value(r).dims == seq![
            old(tape)@.value(q).dims[0],
            old(tape)@.value(k).dims[0],
        ],
        deterministic::<T>() ==> final(tape)@.value(r) == attend_of(
            old(tape)@.value(q),
            old(tape)@.value(k),
            scale,
        ),
{
    let ghost t0 = tape@;
    proof {
        lemma_records_none(t0);
    }
    let kt = k.transpose_2d(tape);
    let ghost t1 = tape@;
    let ghost s1 = Seq::<Step<T>>::empty().push(Step::Transpose(k.id));
    proof {
        lemma_records_push(t0, t0, t1, Seq::<Step<T>>::empty(), Step::Transpose(k.id));
    }
    let product = q.matmul(tape, kt);
    let ghost t2 = tape@;
    let ghost s2 = s1.push(Step::MatMul(q.id, kt.id));
    proof {
        lemma_records_push(t0, t1, t2, s1, Step::MatMul(q.id, kt.id));
    }
    let scaled = product.mul_scalar(tape, scale);
    let ghost t3 = tape@;
    let ghost s3 = s2.push(Step::MulScalar(product.id, scale));
    proof {
        lemma_records_push(t0, t2, t3, s2, Step::MulScalar(product.id, scale));
    }
    let scores = scaled.causal_mask(tape);
    let ghost t4 = tape@;
    let ghost s4 = s3.push(Step::CausalMask(scaled.id));
    proof {
        lemma_records_push(t0, t3, t4, s3, Step::CausalMask(scaled.id));
    }
    let r = scores.softmax(tape);
    let ghost t5 = tape@;
    let ghost s5 = s4.push(Step::Softmax(scores.id));
    proof {
        lemma_records_push(t0, t4, t5, s4, Step::Softmax(scores.id));
    }
    proof {
        assert(s5 =~= attend_steps(t0.nodes.len() as int, q.id, k.id, scale));
    }
    r
}

/// Values mixed by attention weights, quantised and projected.
fn mix<T: Float>(tape: &mut Tape<T>, attn: Var, v: Var, w: Var) -> (r: Var)
    requires
        old(tape).wf(),
        old(tape)@.has(attn),
        old(tape)@.has(v),
        old(tape)@.has(w),
        old(tape)@.value(attn).dims.len() == 2,
        old(tape)@.value(v).dims.len() == 2,
        old(tape)@.value(w).dims.len() == 2,
        old(tape)@.value(attn).dims[1] == old(tape)@.value(v).dims[0],
        old(tape)@.value(v).dims[1] == old(tape)@.value(w).dims[0],
        old(tape)@.value(attn).dims[0] * old(tape)@.value(v).dims[1] <= usize::MAX,
        old(tape)@.value(attn).dims[0] * old(tape)@.value(w).dims[1] <= usize::MAX,
    ensures
        r.id == old(tape)@.nodes.len() + 3,
        final(tape)@.has(r),
        old(tape)@.records(
            final(tape)@,
            mix_steps(old(tape)@.nodes.len() as int, attn.id, v.id, w.id),
        ),
        final(tape)@.value(r).dims == seq![
            old(tape)@.value(attn).dims[0],
            old(tape)@.value(w).dims[1],
        ],
        deterministic::<T>() ==> final(tape)@.value(r) == linear_of(
            restored_acts(matmul_of(old(tape)@.value(attn), old(tape)@.value(v))),
            old(tape)@.value(w),
        ),
{
    let ghost t0 = tape@;
    proof {
        lemma_records_none(t0);
    }
    let ctx = attn.matmul(tape, v);
    let ghost t1 = tape@;
    let ghost s1 = Seq::<Step<T>>::empty().push(Step::MatMul(attn.id, v.id));
    proof {
        lemma_records_push(t0, t0, t1, Seq::<Step<T>>::empty(), Step::MatMul(attn.id, v.id));
    }
    let acts = ctx.quantise_acts_ste(tape);
    let ghost t2 = tape@;
    let ghost s2 = s1.push(Step::QuantiseActs(ctx.id));
    proof {
        lemma_records_push(t0, t1, t2, s1, Step::QuantiseActs(ctx.id));
    }
    let r = linear(tape, acts, w);
    let ghost t3 = tape@;
    let ghost s3 = s2 + linear_steps(t2.nodes.len() as int, acts.id, w.id);
    proof {
        lemma_records_concat(t0, t2, t3, s2, linear_steps(t2.nodes.len() as int, acts.id, w.id));
    }
    proof {
        assert(s3 =~= mix_steps(t0.nodes.len() as int, attn.id, v.id, w.id));
    }
    r
}

/// What one head makes of quantised activations.
fn head_output<T: Float>(tape: &mut Tape<T>, x: Var, h: &AttentionHeadVars, scale: T) -> (r: Var)
    requires
        old(tape).wf(),
        old(tape)@.has(x),
        old(tape)@.value(x).dims.len() == 2,
        head_fits(
            old(tape)@,
            old(tape)@.value(x).dims[0],
            old(tape)@.value(x).dims[1],
            *h,
        ),
    ensures
        r.id == old(tape)@.nodes.len() + 16,
        final(tape)@.has(r),
        old(tape)@.records(
            final(tape)@,
            head_steps(old(tape)@.nodes.len() as int, x.id, *h, scale),
        ),
        final(tape)@.value(r).dims == seq![
            old(tape)@.value(x).dims[0],
            old(tape)@.value(h.w_o).dims[1],
        ],
        deterministic::<T>() ==> final(tape)@.value(r) == head_of(
            old(tape)@.value(x),
            head_arrays(old(tape)@, *h),
            scale,
        ),
{
    let ghost t0 = tape@;
    proof {
        lemma_records_none(t0);
    }
    let q = rotated(tape, x, h.w_q);
    let ghost t1 = tape@;
    let ghost s1 = Seq::<Step<T>>::empty() + rotated_steps(t0.nodes.len() as int, x.id, h.w_q.id);
    proof {
        lemma_records_concat(t0, t0, t1, Seq::<Step<T>>::empty(), rotated_steps(t0.nodes.len() as int, x.id, h.w_q.id));
    }
    let k = rotated(tape, x, h.w_k);
    let ghost t2 = tape@;
    let ghost s2 = s1 + rotated_steps(t1.nodes.len() as int, x.id, h.w_k.id);
    proof {
        lemma_records_concat(t0, t1, t2, s1, rotated_steps(t1.nodes.len() as int, x.id, h.w_k.id));
    }
    let v = linear(tape, x, h.w_v);
    let ghost t3 = tape@;
    let ghost s3 = s2 + linear_steps(t2.nodes.len() as int, x.id, h.w_v.id);
    proof {
        lemma_records_concat(t0, t2, t3, s2, linear_steps(t2.nodes.len() as int, x.id, h.w_v.id));
    }
    let attn = attend(tape, q, k, scale);
    let ghost t4 = tape@;
    let ghost s4 = s3 + attend_steps(t3.nodes.len() as int, q.id, k.id, scale);
    proof {
        lemma_records_concat(t0, t3, t4, s3, attend_steps(t3.nodes.len() as int, q.id, k.id, scale));
    }
    let r = mix(tape, attn, v, h.w_o);
    let ghost t5 = tape@;
    let ghost s5 = s4 + mix_steps(t4.nodes.len() as int, attn.id, v.id, h.w_o.id);
    proof {
        lemma_records_concat(t0, t4, t5, s4, mix_steps(t4.nodes.len() as int, attn.id, v.id, h.w_o.id));
    }
    proof {
        assert(s5 =~= head_steps(t0.nodes.len() as int, x.id, *h, scale));
    }
    r
}

/// Multi-head causal self-attention. The activations are quantised once, each
/// head works on them, and the heads' outputs are summed from the left.
pub fn attention<T: Float>(
    tape: &mut Tape<T>,
    x: Var,
    heads: &[AttentionHeadVars],
    head_dim: usize,
) -> (r: Var)
    requires
        old(tape).wf(),
        old(tape)@.has(x),
        old(tape)@.value(x).dims.len() == 2,
        heads_fit(
            old(tape)@,
            old(tape)@.value(x).dims[0],
            old(tape)@.value(x).dims[1],
            heads@,
        ),
    ensures
        r.id == final(tape)@.nodes.len() - 1,
        final(tape)@.has(r),
        final(tape).wf(),
        old(tape)@.extends_to(final(tape)@),
        deterministic::<T>() ==> old(tape)@.records(
            final(tape)@,
            attention_steps(
                old(tape)@.nodes.len() as int,
                x.id,
                heads@,
                score_scale::<T>(head_dim),
            ),
        ),
        final(tape)@.value(r).dims == seq![
            old(tape)@.value(x).dims[0],
            old(tape)@.value(heads@[0].w_o).dims[1],
        ],
        deterministic::<T>() ==> final(tape)@.value(r) == attention_of(
            old(tape)@.value(x),
            all_heads(old(tape)@, heads@),
            head_dim,
        ),
{
    let scale = T::from_bits(ONE).over(T::from_count(head_dim).sqrt());
    let ghost t0 = tape@;
    let ghost hs = all_heads(t0, heads@);
    let ghost b = t0.nodes.len() as int;
    proof {
        lemma_records_none(t0);
        assert(head_fits(t0, t0.value(x).dims[0], t0.value(x).dims[1], heads@[0]));
    }
    let xe = x.quantise_acts_ste(tape);
    let ghost t1 = tape@;
    let ghost first: Seq<Step<T>> = seq![].push(Step::QuantiseActs(x.id));
    proof {
        lemma_records_push(t0, t0, t1, seq![], Step::QuantiseActs(x.id));
        assert(head_arrays(t1, heads@[0]) == hs[0]);
    }
    let mut combined = head_output(tape, xe, &heads[0], scale);
    proof {
        lemma_records_concat(t0, t1, tape@, first, head_steps(b + 1, xe.id, heads@[0], scale));
        assert(first + head_steps(b + 1, xe.id, heads@[0], scale) =~= first + heads_steps(
            b + 1,
            xe.id,
            heads@,
            scale,
            1,
        ));
    }
    let mut i: usize = 1;
    while i < heads.len()
        invariant
            1 <= i <= heads@.len(),
            b == t0.nodes.len(),
            hs == all_heads(t0, heads@),
            xe.id == b,
            t0.has(x),
            t0.value(x).dims.len() == 2,
            heads_fit(t0, t0.value(x).dims[0], t0.value(x).dims[1], heads@),
            first == seq![Step::<T>::QuantiseActs(x.id)],
            tape.wf(),
            t0.records(tape@, first + heads_steps(b + 1, xe.id, heads@, scale, i as nat)),
            tape@.has(xe),
            tape@.value(xe).dims == t0.value(x).dims,
            combined.id == tape@.nodes.len() - 1,
            tape@.has(combined),
            tape@.value(combined).dims == seq![
                t0.value(x).dims[0],
                t0.value(heads@[0].w_o).dims[1],
            ],
            deterministic::<T>() ==> {
                &&& tape@.value(xe) == restored_acts(t0.value(x))
                &&& tape@.value(combined) == heads_of(restored_acts(t0.value(x)), hs, scale, i as nat)
            },
        decreases heads@.len() - i,
    {
        let ghost ti = tape@;
        let ghost steps = first + heads_steps(b + 1, xe.id, heads@, scale, i as nat);
        let h = &heads[i];
        proof {
            lemma_records_none(t0);
            lemma_records_concat(t0, t0, ti, seq![], steps);
            assert(head_fits(t0, t0.value(x).dims[0], t0.value(x).dims[1], *h));
            assert(t0.value(h.w_o).dims[1] == t0.value(heads@[0].w_o).dims[1]);
            assert(head_arrays(ti, *h) == hs[i as int]);
        }
        let out = head_output(tape, xe, h, scale);
        let ghost tj = tape@;
        let ghost more = head_steps(ti.nodes.len() as int, xe.id, *h, scale);
        proof {
            lemma_records_concat(t0, ti, tj, steps, more);
        }
        let prev = combined;
        combined = prev.add(tape, out);
        proof {
            lemma_records_push(t0, tj, tape@, steps + more, Step::Add(prev.id, out.id));
            assert((steps + more).push(Step::Add(prev.id, out.id)) =~= first + heads_steps(
                b + 1,
                xe.id,
                heads@,
                scale,
                (i + 1) as nat,
            ));
        }
        i += 1;
    }
    proof {
        assert(t0.records(tape@, attention_steps(b, x.id, heads@, scale)));
    }
    combined
}

/// The sum over the first `n` heads of the inner products of their rows, from the left.
pub open spec fn dots_of<T: Float>(
    h: spec_fn(nat) -> Seq<T>,
    w: spec_fn(nat) -> Seq<T>,
    d: nat,
    n: nat,
) -> T
    decreases n,
{
    if n == 0 {
        fzero::<T>()
    } else {
        fadd(dots_of(h, w, d, (n - 1) as nat), fdot(h((n - 1) as nat), w((n - 1) as nat), d))
    }
}

/// An inner product over two stretches is the sum of those over each.
proof fn lemma_dot_parts<T: Float>(a: Seq<T>, b: Seq<T>, x: Seq<T>, y: Seq<T>, m: nat, k: nat)
    requires
        forall|p: T, q: T, r: T| #[trigger] fadd(fadd(p, q), r) == fadd(p, fadd(q, r)),
        forall|p: T| #[trigger] fadd(p, fzero::<T>()) == p,
        forall|i: int| 0 <= i < k ==> #[trigger] a[m + i] == x[i],
        forall|i: int| 0 <= i < k ==> #[trigger] b[m + i] == y[i],
    ensures
        fdot(a, b, m + k) == fadd(fdot(a, b, m), fdot(x, y, k)),
    decreases k,
{
    if k > 0 {
        let p = (k - 1) as nat;
        lemma_dot_parts(a, b, x, y, m, p);
        assert(a[m + p as int] == x[p as int] && b[m + p as int] == y[p as int]);
        let (u, v) = (fdot(a, b, m), fdot(x, y, p));
        let e = fmul(x[p as int], y[p as int]);
        assert(fadd(fadd(u, v), e) == fadd(u, fadd(v, e)));
    }
}

/// An inner product depends on the leading items alone.
proof fn lemma_dot_same<T: Float>(a: Seq<T>, b: Seq<T>, x: Seq<T>, y: Seq<T>, n: nat)
    requires
        forall|i: int| 0 <= i < n ==> #[trigger] a[i] == x[i],
        forall|i: int| 0 <= i < n ==> #[trigger] b[i] == y[i],
    ensures
        fdot(a, b, n) == fdot(x, y, n),
    decreases n,
{
    if n > 0 {
        lemma_dot_same(a, b, x, y, (n - 1) as nat);
        assert(a[n - 1] == x[n - 1] && b[n - 1] == y[n - 1]);
    }
}

/// Projecting each head on its own and adding the results is projecting the heads side
/// by side at once, where sums do not depend on how they are bracketed.
pub proof fn law_heads_project_together<T: Float>(
    h: spec_fn(nat) -> Seq<T>,
    w: spec_fn(nat) -> Seq<T>,
    d: nat,
    n: nat,
)
    requires
        forall|p: T, q: T, r: T| #[trigger] fadd(fadd(p, q), r) == fadd(p, fadd(q, r)),
        forall|p: T| #[trigger] fadd(p, fzero::<T>()) == p,
        forall|i: nat| i < n ==> (#[trigger] h(i)).len() == d,
        forall|i: nat| i < n ==> (#[trigger] w(i)).len() == d,
    ensures
        fdot(flat(n, h), flat(n, w), n * d) == dots_of(h, w, d, n),
    decreases n,
{
    if n > 0 {
        let p = (n - 1) as nat;
        law_heads_project_together(h, w, d, p);
        lemma_flat_len(p, d, h);
        lemma_flat_len(p, d, w);
        let (a, b) = (flat(n, h), flat(n, w));
        assert(n * d == p * d + d) by (nonlinear_arith)
            requires
                n == p + 1,
        ;
        assert(a == flat(p, h) + h(p) && b == flat(p, w) + w(p));
        lemma_dot_parts(a, b, h(p), w(p), p * d, d);
        lemma_dot_same(a, b, flat(p, h), flat(p, w), p * d);
    } else {
        assert(n * d == 0) by (nonlinear_arith)
            requires
                n == 0,
        ;
    }
}

/// The sum over some heads depends on those heads alone.
proof fn lemma_heads_prefix_of<T: Float>(
    x: Array<T>,
    a: Seq<HeadOf<Array<T>>>,
    b: Seq<HeadOf<Array<T>>>,
    scale: T,
    n: nat,
)
    requires
        0 < n <= a.len(),
        n <= b.len(),
        forall|p: int| 0 <= p < n ==> a[p] == b[p],
    ensures
        heads_of(x, a, scale, n) == heads_of(x, b, scale, n),
    decreases n,
{
    if n > 1 {
        lemma_heads_prefix_of(x, a, b, scale, (n - 1) as nat);
    }
}

/// Attention over several heads is the sum, item by item and from the left, of attention
/// over each of them alone: no head is dropped.
pub proof fn law_attention_sums_heads<T: Float>(
    x: Array<T>,
    heads: Seq<HeadOf<Array<T>>>,
    head_dim: usize,
)
    requires
        heads.len() > 1,
    ensures
        attention_of(x, heads, head_dim) == add_of(
            attention_of(x, heads.drop_last(), head_dim),
            attention_of(x, seq![heads.last()], head_dim),
        ),
{
    let n = (heads.len() - 1) as nat;
    lemma_heads_prefix_of(
        restored_acts(x),
        heads,
        heads.drop_last(),
        score_scale::<T>(head_dim),
        n,
    );
}

} // verus!
