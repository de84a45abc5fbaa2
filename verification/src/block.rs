//! The pre-norm transformer block.
use crate::attention::{all_heads, attention, attention_of, attention_steps, heads_fit, score_scale};
use crate::autograd::{
    lemma_records_concat, lemma_records_none, lemma_records_push, Graph, NodeId, Step, Tape, Var,
};
use crate::ffn::{ffn, ffn_fits, ffn_of, ffn_steps};
use crate::float::{deterministic, Float};
use crate::layout::BlockOf;
use crate::ops::rmsnorm_of;
use crate::tensor::{add_of, Array};
use vstd::prelude::*;

verus! {

/// The weights of one attention head, as nodes of a tape.
#[derive(Clone, Copy)]
pub struct AttentionHeadVars {
    pub w_q: Var,
    pub w_k: Var,
    pub w_v: Var,
    pub w_o: Var,
}

/// The weights of one block, as nodes of a tape.
pub struct BlockWeights {
    pub heads: Vec<AttentionHeadVars>,
    pub ffn_gate_w: Var,
    pub ffn_up_w: Var,
    pub ffn_down_w: Var,
}

/// The values of a block's weights on a tape.
pub open spec fn block_arrays<T: Float>(t: Graph<T>, w: BlockWeights) -> BlockOf<Array<T>> {
    BlockOf {
        heads: all_heads(t, w.heads@),
        gate: t.value(w.ffn_gate_w),
        up: t.value(w.ffn_up_w),
        down: t.value(w.ffn_down_w),
    }
}

/// The activations after attention over their normalised rows is added to them.
pub open spec fn attended_of<T: Float>(x: Array<T>, w: BlockOf<Array<T>>, head_dim: usize) -> Array<
    T,
> {
    add_of(x, attention_of(rmsnorm_of(x), w.heads, head_dim))
}

/// The activations after the feed-forward layer over their normalised rows is added to them.
pub open spec fn fed_of<T: Float>(x: Array<T>, w: BlockOf<Array<T>>) -> Array<T> {
    add_of(x, ffn_of(rmsnorm_of(x), w.gate, w.up, w.down))
}

/// A transformer block: attention and then the feed-forward layer, each over
/// normalised rows and added to what it was given.
pub open spec fn block_of<T: Float>(x: Array<T>, w: BlockOf<Array<T>>, head_dim: usize) -> Array<T> {
    fed_of(attended_of(x, w, head_dim), w)
}

/// The weights fit activations of `m` rows and `n` columns and give back as many.
pub open spec fn block_fits<T: Float>(t: Graph<T>, m: usize, n: usize, w: BlockWeights) -> bool {
    &&& heads_fit(t, m, n, w.heads@)
    &&& t.value(w.heads@[0].w_o).dims[1] == n
    &&& ffn_fits(t, m, n, w.ffn_gate_w, w.ffn_up_w, w.ffn_down_w)
    &&& t.value(w.ffn_down_w).dims[1] == n
}

/// What a tape holds of a block's weights does not change as it grows.
pub proof fn lemma_block_kept<T: Float>(a: Graph<T>, b: Graph<T>, m: usize, n: usize, w: BlockWeights)
    requires
        a.extends_to(b),
        block_fits(a, m, n, w),
    ensures
        block_fits(b, m, n, w),
        block_arrays(b, w) == block_arrays(a, w),
{
    assert forall|i: int| 0 <= i < a.nodes.len() implies #[trigger] b.nodes[i] == a.nodes[i] by {
        assert(b.nodes.take(a.nodes.len() as int)[i] == b.nodes[i]);
    }
    assert forall|i: int| 0 <= i < w.heads@.len() implies crate::attention::head_arrays(
        b,
        #[trigger] w.heads@[i],
    ) == crate::attention::head_arrays(a, w.heads@[i]) && crate::attention::head_fits(
        b,
        m,
        n,
        w.heads@[i],
    ) by {
        assert(crate::attention::head_fits(a, m, n, w.heads@[i]));
    }
    assert forall|i: int| 0 <= i < w.heads@.len() implies (#[trigger] b.value(
        w.heads@[i].w_o,
    )).dims[1] == b.value(w.heads@[0].w_o).dims[1] by {
        assert(crate::attention::head_fits(a, m, n, w.heads@[i]));
        assert(crate::attention::head_fits(a, m, n, w.heads@[0]));
        assert(a.value(w.heads@[i].w_o).dims[1] == a.value(w.heads@[0].w_o).dims[1]);
    }
    assert(crate::attention::head_fits(a, m, n, w.heads@[0]));
    assert(all_heads(b, w.heads@) =~= all_heads(a, w.heads@));
}

/// The steps of the attention half over node `x`, from node `b` on.
pub open spec fn attended_steps<T>(
    b: int,
    x: NodeId,
    heads: Seq<AttentionHeadVars>,
    scale: T,
) -> Seq<Step<T>> {
    let inner = seq![Step::RmsNorm(x)] + attention_steps(b + 1, b as usize, heads, scale);
    inner.push(Step::Add(x, (b + inner.len() - 1) as usize))
}

/// The steps of the feed-forward half over node `x`, from node `b` on.
pub open spec fn fed_steps<T>(b: int, x: NodeId, gate: NodeId, up: NodeId, down: NodeId) -> Seq<
    Step<T>,
> {
    (seq![Step::RmsNorm(x)] + ffn_steps(b + 1, b as usize, gate, up, down)).push(
        Step::Add(x, (b + 10) as usize),
    )
}

/// The steps of a block over node `x`, from node `b` on.
pub open spec fn block_steps<T>(b: int, x: NodeId, w: BlockWeights, scale: T) -> Seq<Step<T>> {
    let first = attended_steps(b, x, w.heads@, scale);
    let mid = b + first.len();
    first + fed_steps(
        mid,
        (mid - 1) as usize,
        w.ffn_gate_w.id,
        w.ffn_up_w.id,
        w.ffn_down_w.id,
    )
}

/// Attention over the normalised rows, added to the activations.
fn attended<T: Float>(tape: &mut Tape<T>, x: Var, w: &BlockWeights, head_dim: usize) -> (r: Var)
    requires
        old(tape).wf(),
        old(tape)@.has(x),
        old(tape)@.value(x).dims.len() == 2,
        block_fits(old(tape)@, old(tape)@.value(x).dims[0], old(tape)@.value(x).dims[1], *w),
    ensures
        r.id == final(tape)@.nodes.len() - 1,
        final(tape)@.has(r),
        final(tape).wf(),
        old(tape)@.extends_to(final(tape)@),
        deterministic::<T>() ==> old(tape)@.records(
            final(tape)@,
            attended_steps(
                old(tape)@.nodes.len() as int,
                x.id,
                w.heads@,
                score_scale::<T>(head_dim),
            ),
        ),
        final(tape)@.value(r).dims == old(tape)@.value(x).dims,
        deterministic::<T>() ==> final(tape)@.value(r) == attended_of(
            old(tape)@.value(x),
            block_arrays(old(tape)@, *w),
            head_dim,
        ),
{
    let ghost t0 = tape@;
    let ghost m = t0.value(x).dims[0];
    let ghost n = t0.value(x).dims[1];
    let ghost scale = score_scale::<T>(head_dim);
    proof {
        lemma_records_none(t0);
    }
    let normed = x.rmsnorm(tape);
    let ghost t1 = tape@;
    let ghost s1 = Seq::<Step<T>>::empty().push(Step::RmsNorm(x.id));
    proof {
        lemma_records_push(t0, t0, t1, Seq::empty(), Step::RmsNorm(x.id));
        lemma_block_kept(t0, t1, m, n, *w);
    }
    let attn = attention(tape, normed, w.heads.as_slice(), head_dim);
    let ghost t2 = tape@;
    let ghost inner = attention_steps(t1.nodes.len() as int, normed.id, w.heads@, scale);
    proof {
        assert forall|i: int| 0 <= i < t1.nodes.len() implies #[trigger] t2.nodes[i]
            == t1.nodes[i] by {
            assert(t2.nodes.take(t1.nodes.len() as int)[i] == t2.nodes[i]);
        }
        assert(t2.value(attn).dims =~= t2.value(x).dims);
        assert(t0.nodes =~= t2.nodes.take(t0.nodes.len() as int));
        lemma_records_none(t2);
        if deterministic::<T>() {
            lemma_records_concat(t0, t1, t2, s1, inner);
        }
    }
    let r = x.add(tape, attn);
    proof {
        lemma_records_push(t2, t2, tape@, Seq::empty(), Step::Add(x.id, attn.id));
        lemma_extends(t0, t1, t2);
        lemma_extends(t0, t2, tape@);
        if deterministic::<T>() {
            lemma_records_push(t0, t2, tape@, s1 + inner, Step::Add(x.id, attn.id));
            assert((s1 + inner).push(Step::Add(x.id, attn.id)) =~= attended_steps(
                t0.nodes.len() as int,
                x.id,
                w.heads@,
                scale,
            ));
        }
    }
    r
}

/// Growth is transitive.
pub proof fn lemma_extends<T: Float>(a: Graph<T>, b: Graph<T>, c: Graph<T>)
    requires
        a.wf(),
        b.wf(),
        c.wf(),
        a.extends_to(b),
        b.extends_to(c),
    ensures
        a.extends_to(c),
        forall|i: int| 0 <= i < a.nodes.len() ==> #[trigger] c.nodes[i] == a.nodes[i],
{
    let n = a.nodes.len() as int;
    let m = b.nodes.len() as int;
    assert forall|i: int| 0 <= i < n implies #[trigger] c.nodes[i] == a.nodes[i] && c.grads[i]
        == a.grads[i] by {
        assert(c.nodes.take(m)[i] == c.nodes[i]);
        assert(b.nodes.take(n)[i] == b.nodes[i]);
        assert(c.grads.take(m)[i] == c.grads[i]);
        assert(b.grads.take(n)[i] == b.grads[i]);
    }
    assert(c.nodes.take(n) =~= a.nodes);
    assert(c.grads.take(n) =~= a.grads);
}

/// The feed-forward layer over the normalised rows, added to the activations.
fn fed<T: Float>(tape: &mut Tape<T>, x: Var, w: &BlockWeights) -> (r: Var)
    requires
        old(tape).wf(),
        old(tape)@.has(x),
        old(tape)@.value(x).dims.len() == 2,
        block_fits(old(tape)@, old(tape)@.value(x).dims[0], old(tape)@.value(x).dims[1], *w),
    ensures
        r.id == old(tape)@.nodes.len() + 11,
        final(tape)@.has(r),
        old(tape)@.records(
            final(tape)@,
            fed_steps(
                old(tape)@.nodes.len() as int,
                x.id,
                w.ffn_gate_w.id,
                w.ffn_up_w.id,
                w.ffn_down_w.id,
            ),
        ),
        final(tape)@.value(r).dims == old(tape)@.value(x).dims,
        deterministic::<T>() ==> final(tape)@.value(r) == fed_of(
            old(tape)@.value(x),
            block_arrays(old(tape)@, *w),
        ),
{
    let ghost t0 = tape@;
    proof {
        lemma_records_none(t0);
    }
    let normed = x.rmsnorm(tape);
    let ghost t1 = tape@;
    let ghost s1 = Seq::<Step<T>>::empty().push(Step::RmsNorm(x.id));
    proof {
        lemma_records_push(t0, t0, t1, Seq::<Step<T>>::empty(), Step::RmsNorm(x.id));
    }
    let out = ffn(tape, normed, w.ffn_gate_w, w.ffn_up_w, w.ffn_down_w);
    let ghost t2 = tape@;
    let ghost s2 = s1 + ffn_steps(
        t1.nodes.len() as int,
        normed.id,
        w.ffn_gate_w.id,
        w.ffn_up_w.id,
        w.ffn_down_w.id,
    );
    proof {
        lemma_records_concat(t0, t1, t2, s1, ffn_steps(
        t1.nodes.len() as int,
        normed.id,
        w.ffn_gate_w.id,
        w.ffn_up_w.id,
        w.ffn_down_w.id,
    ));
    }
    proof {
        assert(t2.value(out).dims =~= t2.value(x).dims);
    }
    let r = x.add(tape, out);
    let ghost t3 = tape@;
    let ghost s3 = s2.push(Step::Add(x.id, out.id));
    proof {
        lemma_records_push(t0, t2, t3, s2, Step::Add(x.id, out.id));
    }
    proof {
        assert(s3 =~= fed_steps(
            t0.nodes.len() as int,
            x.id,
            w.ffn_gate_w.id,
            w.ffn_up_w.id,
            w.ffn_down_w.id,
        ));
    }
    r
}

/// The two halves of a block record the steps of the block.
proof fn lemma_halves<T: Float>(
    a: Graph<T>,
    b: Graph<T>,
    c: Graph<T>,
    x: NodeId,
    w: BlockWeights,
    scale: T,
)
    requires
        a.records(b, attended_steps(a.nodes.len() as int, x, w.heads@, scale)),
        b.records(
            c,
            fed_steps(
                b.nodes.len() as int,
                (b.nodes.len() - 1) as usize,
                w.ffn_gate_w.id,
                w.ffn_up_w.id,
                w.ffn_down_w.id,
            ),
        ),
    ensures
        a.records(c, block_steps(a.nodes.len() as int, x, w, scale)),
{
    let first = attended_steps(a.nodes.len() as int, x, w.heads@, scale);
    let second = fed_steps::<T>(
        b.nodes.len() as int,
        (b.nodes.len() - 1) as usize,
        w.ffn_gate_w.id,
        w.ffn_up_w.id,
        w.ffn_down_w.id,
    );
    lemma_records_concat(a, b, c, first, second);
    assert(first + second == block_steps(a.nodes.len() as int, x, w, scale));
}

/// A transformer block: attention and then the feed-forward layer, each over
/// normalised rows and added to what it was given.
pub fn transformer_block<T: Float>(
    tape: &mut Tape<T>,
    x: Var,
    w: &BlockWeights,
    head_dim: usize,
) -> (r: Var)
    requires
        old(tape).wf(),
        old(tape)@.has(x),
        old(tape)@.value(x).dims.len() == 2,
        block_fits(old(tape)@, old(tape)@.value(x).dims[0], old(tape)@.value(x).dims[1], *w),
    ensures
        r.id == final(tape)@.nodes.len() - 1,
        final(tape)@.has(r),
        final(tape).wf(),
        old(tape)@.extends_to(final(tape)@),
        deterministic::<T>() ==> old(tape)@.records(
            final(tape)@,
            block_steps(
                old(tape)@.nodes.len() as int,
                x.id,
                *w,
                score_scale::<T>(head_dim),
            ),
        ),
        final(tape)@.value(r).dims == old(tape)@.value(x).dims,
        deterministic::<T>() ==> final(tape)@.value(r) == block_of(
            old(tape)@.value(x),
            block_arrays(old(tape)@, *w),
            head_dim,
        ),
{
    let ghost t0 = tape@;
    let ghost m = t0.value(x).dims[0];
    let ghost n = t0.value(x).dims[1];
    let ghost scale = score_scale::<T>(head_dim);
    let x1 = attended(tape, x, w, head_dim);
    let ghost t1 = tape@;
    proof {
        lemma_block_kept(t0, t1, m, n, *w);
    }
    let r = fed(tape, x1, w);
    proof {
        lemma_extends(t0, t1, tape@);
        if deterministic::<T>() {
            lemma_halves(t0, t1, tape@, x.id, *w, scale);
        }
    }
    r
}

} // verus!
