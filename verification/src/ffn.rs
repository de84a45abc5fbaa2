//! The gated feed-forward layer through quantised projections.
use crate::attention::{linear, linear_of, linear_steps};
use crate::autograd::{
    lemma_records_concat, lemma_records_none, lemma_records_push, Graph, NodeId, Step, Tape, Var,
};
use crate::bitlinear::restored_acts;
use crate::float::{deterministic, Float};
use crate::ops::silu_of;
use crate::tensor::{mul_of, Array};
use vstd::prelude::*;

verus! {

/// The gated hidden layer over quantised activations.
pub open spec fn gated_of<T: Float>(x: Array<T>, gate: Array<T>, up: Array<T>) -> Array<T> {
    mul_of(silu_of(linear_of(x, gate)), linear_of(x, up))
}

/// The feed-forward layer: gate and lift the quantised activations, quantise
/// the product and project it back.
pub open spec fn ffn_of<T: Float>(
    x: Array<T>,
    gate: Array<T>,
    up: Array<T>,
    down: Array<T>,
) -> Array<T> {
    linear_of(restored_acts(gated_of(restored_acts(x), gate, up)), down)
}

/// The weights fit activations of `m` rows and `n` columns.
pub open spec fn ffn_fits<T: Float>(
    t: Graph<T>,
    m: usize,
    n: usize,
    gate: Var,
    up: Var,
    down: Var,
) -> bool {
    let (g, u, d) = (t.value(gate).dims, t.value(up).dims, t.value(down).dims);
    &&& t.has(gate) && t.has(up) && t.has(down)
    &&& g.len() == 2 && u.len() == 2 && d.len() == 2
    &&& g[0] == n && u[0] == n && u[1] == g[1] && d[0] == g[1]
    &&& m * g[1] <= usize::MAX && m * d[1] <= usize::MAX
}

/// The steps of the gated hidden layer over node `x`, from node `b` on.
pub open spec fn gated_steps<T>(b: int, x: NodeId, gate: NodeId, up: NodeId) -> Seq<Step<T>> {
    linear_steps(b, x, gate).push(Step::Silu((b + 1) as usize)) + linear_steps(
        b + 3,
        x,
        up,
    ).push(Step::Mul((b + 2) as usize, (b + 4) as usize))
}

/// The steps of the feed-forward layer over node `x`, from node `b` on.
pub open spec fn ffn_steps<T>(
    b: int,
    x: NodeId,
    gate: NodeId,
    up: NodeId,
    down: NodeId,
) -> Seq<Step<T>> {
    seq![Step::QuantiseActs(x)] + gated_steps(b + 1, b as usize, gate, up).push(
        Step::QuantiseActs((b + 6) as usize),
    ) + linear_steps(b + 8, (b + 7) as usize, down)
}

/// The gated hidden layer over quantised activations.
fn gated<T: Float>(tape: &mut Tape<T>, x: Var, gate_w: Var, up_w: Var) -> (r: Var)
    requires
        old(tape).wf(),
        old(tape)@.has(x),
        old(tape)@.has(gate_w),
        old(tape)@.has(up_w),
        old(tape)@.value(x).dims.len() == 2,
        old(tape)@.value(gate_w).dims.len() == 2,
        old(tape)@.value(up_w).dims.len() == 2,
        old(tape)@.value(x).dims[1] == old(tape)@.value(gate_w).dims[0],
        old(tape)@.value(x).dims[1] == old(tape)@.value(up_w).dims[0],
        old(tape)@.value(gate_w).dims[1] == old(tape)@.value(up_w).dims[1],
        old(tape)@.value(x).dims[0] * old(tape)@.value(gate_w).dims[1] <= usize::MAX,
    ensures
        r.id == old(tape)@.nodes.len() + 5,
        final(tape)@.has(r),
        old(tape)@.records(
            final(tape)@,
            gated_steps(old(tape)@.nodes.len() as int, x.id, gate_w.id, up_w.id),
        ),
        final(tape)@.value(r).dims == seq![
            old(tape)@.value(x).dims[0],
            old(tape)@.value(gate_w).dims[1],
        ],
        deterministic::<T>() ==> final(tape)@.value(r) == gated_of(
            old(tape)@.value(x),
            old(tape)@.value(gate_w),
            old(tape)@.value(up_w),
        ),
{
    let ghost t0 = tape@;
    proof {
        lemma_records_none(t0);
    }
    let g0 = linear(tape, x, gate_w);
    let ghost t1 = tape@;
    let ghost s1 = Seq::<Step<T>>::empty() + linear_steps(t0.nodes.len() as int, x.id, gate_w.id);
    proof {
        lemma_records_concat(t0, t0, t1, Seq::<Step<T>>::empty(), linear_steps(t0.nodes.len() as int, x.id, gate_w.id));
    }
    let gate = g0.silu(tape);
    let ghost t2 = tape@;
    let ghost s2 = s1.push(Step::Silu(g0.id));
    proof {
        lemma_records_push(t0, t1, t2, s1, Step::Silu(g0.id));
    }
    let up = linear(tape, x, up_w);
    let ghost t3 = tape@;
    let ghost s3 = s2 + linear_steps(t2.nodes.len() as int, x.id, up_w.id);
    proof {
        lemma_records_concat(t0, t2, t3, s2, linear_steps(t2.nodes.len() as int, x.id, up_w.id));
    }
    let r = gate.mul(tape, up);
    let ghost t4 = tape@;
    let ghost s4 = s3.push(Step::Mul(gate.id, up.id));
    proof {
        lemma_records_push(t0, t3, t4, s3, Step::Mul(gate.id, up.id));
    }
    proof {
        assert(s4 =~= gated_steps(t0.nodes.len() as int, x.id, gate_w.id, up_w.id));
    }
    r
}

/// The feed-forward layer: the activations are quantised, gated by a SiLU
/// branch, quantised again and projected back.
pub fn ffn<T: Float>(tape: &mut Tape<T>, x: Var, gate_w: Var, up_w: Var, down_w: Var) -> (r: Var)
    requires
        old(tape).wf(),
        old(tape)@.has(x),
        old(tape)@.value(x).dims.len() == 2,
        ffn_fits(
            old(tape)@,
            old(tape)@.value(x).dims[0],
            old(tape)@.value(x).dims[1],
            gate_w,
            up_w,
            down_w,
        ),
    ensures
        r.id == old(tape)@.nodes.len() + 9,
        final(tape)@.has(r),
        old(tape)@.records(
            final(tape)@,
            ffn_steps(
                old(tape)@.nodes.len() as int,
                x.id,
                gate_w.id,
                up_w.id,
                down_w.id,
            ),
        ),
        final(tape)@.value(r).dims == seq![
            old(tape)@.value(x).dims[0],
            old(tape)@.value(down_w).dims[1],
        ],
        deterministic::<T>() ==> final(tape)@.value(r) == ffn_of(
            old(tape)@.value(x),
            old(tape)@.value(gate_w),
            old(tape)@.value(up_w),
            old(tape)@.value(down_w),
        ),
{
    let ghost t0 = tape@;
    proof {
        lemma_records_none(t0);
    }
    let xe = x.quantise_acts_ste(tape);
    let ghost t1 = tape@;
    let ghost s1 = Seq::<Step<T>>::empty().push(Step::QuantiseActs(x.id));
    proof {
        lemma_records_push(t0, t0, t1, Seq::<Step<T>>::empty(), Step::QuantiseActs(x.id));
    }
    let h = gated(tape, xe, gate_w, up_w);
    let ghost t2 = tape@;
    let ghost s2 = s1 + gated_steps(t1.nodes.len() as int, xe.id, gate_w.id, up_w.id);
    proof {
        lemma_records_concat(t0, t1, t2, s1, gated_steps(t1.nodes.len() as int, xe.id, gate_w.id, up_w.id));
    }
    let he = h.quantise_acts_ste(tape);
    let ghost t3 = tape@;
    let ghost s3 = s2.push(Step::QuantiseActs(h.id));
    proof {
        lemma_records_push(t0, t2, t3, s2, Step::QuantiseActs(h.id));
    }
    let r = linear(tape, he, down_w);
    let ghost t4 = tape@;
    let ghost s4 = s3 + linear_steps(t3.nodes.len() as int, he.id, down_w.id);
    proof {
        lemma_records_concat(t0, t3, t4, s3, linear_steps(t3.nodes.len() as int, he.id, down_w.id));
    }
    proof {
        assert(s4 =~= ffn_steps(
            t0.nodes.len() as int,
            x.id,
            gate_w.id,
            up_w.id,
            down_w.id,
        ));
    }
    r
}

} // verus!
