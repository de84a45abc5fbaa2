//! What a step of regression does: it moves the weight against the slope of the mean square.
use crate::agreement::grid;
use crate::autograd::{accumulate, back, contributions, seeded, Entry, Graph, NodeId};
use crate::exact::{exact_share, lemma_sum_added, ring_back, shares_out};
use crate::float::{deterministic, fadd, fcount, fdiv, fmul, fone, fsub, fsum, fzero, Float};
use crate::identities::{
    ring, ring_add, ring_cancel, ring_mul, ring_product, ring_spread, ring_zero,
};
use crate::linear::{law_product_item, law_transpose_item, lemma_factor_in};
use crate::model::descended_of;
use crate::ops::mean_grad_of;
use crate::regression::{descent_step, empty_graph, loss_graph, loss_steps};
use crate::slopes::law_recorded_values;
use crate::tensor::{add_of, filled, matmul_of, mul_of, sub_of, transpose_of, volume, Array};
use vstd::prelude::*;

verus! {

/// One contribution added to the gradients.
proof fn lemma_one<T: Float>(grads: Seq<Array<T>>, p: NodeId, g: Array<T>)
    requires
        p < grads.len(),
    ensures
        accumulate(grads, seq![(p, g)]) == grads.update(p as int, add_of(grads[p as int], g)),
{
    reveal_with_fuel(accumulate, 2);
    assert(seq![(p, g)].drop_last() =~= Seq::empty());
}

/// Two contributions added to the gradients.
proof fn lemma_two<T: Float>(grads: Seq<Array<T>>, p: NodeId, g: Array<T>, q: NodeId, h: Array<T>)
    requires
        p < grads.len(),
        q < grads.len(),
    ensures
        ({
            let s = grads.update(p as int, add_of(grads[p as int], g));
            accumulate(grads, seq![(p, g), (q, h)]) == s.update(q as int, add_of(s[q as int], h))
        }),
{
    lemma_one(grads, p, g);
    reveal_with_fuel(accumulate, 2);
    assert(seq![(p, g), (q, h)].drop_last() =~= seq![(p, g)]);
}

/// Nothing added to a tensor of zeros.
proof fn lemma_onto_zeros<T: Float>(z: Array<T>, a: Array<T>)
    requires
        ring::<T>(),
        z == filled(a.dims, fzero::<T>()),
        a.wf(),
    ensures
        add_of(z, a) == a,
{
    assert forall|k: int| 0 <= k < a.data.len() implies #[trigger] add_of(z, a).data[k] == a.data[k] by {
        ring_add(fzero::<T>(), a.data[k]);
        ring_zero(a.data[k]);
    }
    assert(add_of(z, a) =~= a);
}

/// The tape of a regression loss over plain weights, and what stands on it.
spec fn plain_tape<T: Float>(t: Graph<T>, x: Array<T>, y: Array<T>, w: Array<T>) -> bool {
    let e = sub_of(matmul_of(x, w), y);
    &&& t.nodes.len() == 7
    &&& t.grads.len() == 7
    &&& forall|k: int| 0 <= k < 7 ==> #[trigger] t.nodes[k].step == loss_steps::<T>(false)[k]
    &&& forall|k: int|
        0 <= k < 7 ==> #[trigger] t.grads[k] == filled(t.nodes[k].value.dims, fzero::<T>())
    &&& t.nodes[0].value == x
    &&& t.nodes[1].value == y
    &&& t.nodes[2].value == w
    &&& t.nodes[3].value == matmul_of(x, w)
    &&& t.nodes[4].value == e
    &&& t.nodes[5].value == mul_of(e, e)
    &&& forall|k: int| 0 <= k < 7 ==> (#[trigger] t.nodes[k]).value.wf()
    &&& t.nodes[6].value.dims == seq![1usize]
}

/// A recorded regression loss is such a tape.
proof fn lemma_plain_tape<T: Float>(t: Graph<T>, x: Array<T>, y: Array<T>, w: Array<T>)
    requires
        deterministic::<T>(),
        loss_graph(t, x, y, w, false),
    ensures
        plain_tape(t, x, y, w),
{
    let s = loss_steps::<T>(false);
    let none = empty_graph::<T>(t.mark);
    assert(none.nodes.len() == 0);
    assert forall|k: int| 0 <= k < 7 implies #[trigger] t.nodes[k].step == s[k] by {
        assert(t.nodes[none.nodes.len() + k].step == s[k]);
    }
    assert forall|k: int| 0 <= k < 7 implies (#[trigger] t.nodes[k]).value.wf() by {
        assert(crate::autograd::entry_ok(t.nodes, k));
    }
    assert(t.nodes[3].step == s[3] && t.nodes[4].step == s[4]);
    assert(t.nodes[5].step == s[5] && t.nodes[6].step == s[6]);
    law_recorded_values(t, 3);
    law_recorded_values(t, 4);
    law_recorded_values(t, 5);
    law_recorded_values(t, 6);
}

/// The gradient of the weight on such a tape.
proof fn lemma_plain_gradient<T: Float>(t: Graph<T>, x: Array<T>, y: Array<T>, w: Array<T>)
    requires
        ring::<T>(),
        plain_tape(t, x, y, w),
        matmul_of(x, w).dims == y.dims,
        matmul_of(transpose_of(x), y).dims == w.dims,
        matmul_of(transpose_of(x), sub_of(matmul_of(x, w), y)).wf(),
    ensures
        ({
            let e = sub_of(matmul_of(x, w), y);
            let m = mul_of(mean_grad_of(filled(seq![1usize], fone::<T>()), mul_of(e, e)), e);
            back(t.nodes, seeded(t, 6), 7)[2] == add_of(
                t.grads[2],
                matmul_of(transpose_of(x), add_of(m, m)),
            )
        }),
{
    let n = t.nodes;
    let e = sub_of(matmul_of(x, w), y);
    let one = filled(seq![1usize], fone::<T>());
    let q = mean_grad_of(one, mul_of(e, e));
    let m = mul_of(q, e);
    let d = add_of(m, m);
    assert(n[6].step == loss_steps::<T>(false)[6] && n[5].step == loss_steps::<T>(false)[5]);
    assert(n[4].step == loss_steps::<T>(false)[4] && n[3].step == loss_steps::<T>(false)[3]);
    assert(n[2].step == loss_steps::<T>(false)[2] && n[1].step == loss_steps::<T>(false)[1]);
    assert(n[0].step == loss_steps::<T>(false)[0]);
    assert(n[3].value.wf() && n[4].value.wf() && n[5].value.wf());
    let s7 = seeded(t, 6);
    assert(s7[6] == one);
    assert(contributions(n, 6, one) =~= seq![(5usize, q)]);
    lemma_one(s7, 5, q);
    lemma_onto_zeros(t.grads[5], q);
    let s6 = s7.update(5, q);
    assert(contributions(n, 5, q) =~= seq![(4usize, m), (4usize, m)]);
    lemma_two(s6, 4, m, 4, m);
    lemma_onto_zeros(t.grads[4], m);
    let s5 = s6.update(4, m).update(4, d);
    assert(contributions(n, 4, d)[0] == (3usize, d) && contributions(n, 4, d)[1].0 == 1);
    let f = contributions(n, 4, d)[1].1;
    assert(contributions(n, 4, d) =~= seq![(3usize, d), (1usize, f)]);
    lemma_two(s5, 3, d, 1, f);
    lemma_onto_zeros(t.grads[3], d);
    let s4 = s5.update(3, d).update(1, add_of(t.grads[1], f));
    let (a, b) = (matmul_of(d, transpose_of(w)), matmul_of(transpose_of(x), d));
    assert(contributions(n, 3, d) =~= seq![(0usize, a), (2usize, b)]);
    lemma_two(s4, 0, a, 2, b);
    let s3 = s4.update(0, add_of(t.grads[0], a)).update(2, add_of(t.grads[2], b));
    assert(contributions(n, 2, s3[2]) =~= Seq::empty());
    assert(contributions(n, 1, s3[1]) =~= Seq::empty());
    assert(contributions(n, 0, s3[0]) =~= Seq::empty());
    assert(accumulate(s3, Seq::empty()) == s3);
    lemma_back_step(n, s7, 7);
    lemma_back_step(n, s6, 6);
    lemma_back_step(n, s5, 5);
    lemma_back_step(n, s4, 4);
    lemma_back_step(n, s3, 3);
    lemma_back_step(n, s3, 2);
    lemma_back_step(n, s3, 1);
}

/// One node of the way back.
proof fn lemma_back_step<T: Float>(n: Seq<Entry<T>>, s: Seq<Array<T>>, k: nat)
    requires
        k > 0,
    ensures
        back(n, s, k) == back(n, accumulate(s, contributions(n, k - 1, s[k - 1])), (k - 1) as nat),
        back(n, s, 0) == s,
{
}

/// A step moves every item of the weight by the rate times the slope of the loss: twice the
/// inner product of its inputs with what the predictions miss, over the number of targets.
pub proof fn law_regression_goes_downhill<T: Float>(
    x: Array<T>,
    y: Array<T>,
    w: Array<T>,
    lr: T,
    loss: T,
    next: Array<T>,
    m: usize,
    k: usize,
    n: usize,
    i: nat,
    j: nat,
)
    requires
        deterministic::<T>(),
        ring::<T>(),
        shares_out::<T>(),
        grid(x, m, k),
        grid(w, k, n),
        grid(y, m, n),
        0 < m * n <= usize::MAX,
        i < k,
        j < n,
        descent_step(x, y, w, lr, false, loss, next),
    ensures
        ({
            let e = sub_of(matmul_of(x, w), y);
            let slope = fsum(
                Seq::new(m as nat, |r: int| fmul(x.row(r as nat)[i as int], e.row(r as nat)[j as int])),
            );
            fmul(
                fcount::<T>((m * n) as usize),
                fsub(w.row(i)[j as int], next.row(i)[j as int]),
            ) == fmul(lr, fadd(slope, slope))
        }),
{
    assert(m > 0) by (nonlinear_arith)
        requires
            0 < m * n,
    ;
    let t = choose|t: Graph<T>|
        {
            let n = t.nodes.len();
            &&& #[trigger] loss_graph(t, x, y, w, false)
            &&& loss == t.nodes.last().value.data[0]
            &&& next == descended_of(w, back(t.nodes, seeded(t, (n - 1) as usize), n)[2], lr)
        };
    lemma_plain_tape(t, x, y, w);
    let e = sub_of(matmul_of(x, w), y);
    let xt = transpose_of(x);
    law_product_item(x, w, m, k, n, 0, j);
    law_transpose_item(x, m, k, 0, i);
    crate::tensor::lemma_volume2(seq![m, n]);
    crate::tensor::lemma_volume2(seq![k, n]);
    law_product_item(xt, y, k, m, n, i, j);
    law_product_item(xt, e, k, m, n, i, j);
    let one = filled(seq![1usize], fone::<T>());
    let q = mean_grad_of(one, mul_of(e, e));
    let h = mul_of(q, e);
    let d = add_of(h, h);
    lemma_plain_gradient(t, x, y, w);
    law_product_item(xt, d, k, m, n, i, j);
    let g = matmul_of(xt, d);
    lemma_onto_zeros(t.grads[2], g);
    assert(next == descended_of(w, g, lr));
    // An item of the gradient of the loss, times the number of targets, is twice the miss.
    let c = fcount::<T>((m * n) as usize);
    let u = Seq::new(m as nat, |r: int| fmul(x.row(r as nat)[i as int], e.row(r as nat)[j as int]));
    let v = Seq::new(m as nat, |r: int| fmul(xt.row(i)[r], d.row(r as nat)[j as int]));
    assert(one.data[0] == fone::<T>()) by {
        assert(volume(seq![1usize]) == 1) by {
            reveal_with_fuel(volume, 2);
        }
    }
    let z = Seq::new(m as nat, |r: int| fmul(v[r], c));
    assert forall|r: int| 0 <= r < m implies #[trigger] z[r] == fadd(u[r], u[r]) by {
        law_transpose_item(x, m, k, r as nat, i);
        crate::agreement::lemma_row(e, m, n, r as nat);
        crate::agreement::lemma_row(d, m, n, r as nat);
        let p = r * n + j;
        let (a, b) = (x.row(r as nat)[i as int], e.data[p]);
        assert(e.row(r as nat)[j as int] == b);
        assert(d.row(r as nat)[j as int] == d.data[p]);
        lemma_share(b, (m * n) as usize);
        let f = fmul(fmul(fone::<T>(), fdiv(fone::<T>(), c)), b);
        assert(d.data[p] == fadd(f, f));
        ring_product(a, fadd(f, f), c);
        ring_spread(b, b, a);
    }
    lemma_factor_in(v, c);
    assert(z =~= Seq::new(v.len(), |r: int| fmul(v[r], c)));
    lemma_sum_added(z, u, u);
    let at = g.row(i)[j as int];
    assert(fmul(at, c) == fadd(fsum(u), fsum(u)));
    // The weight and the next one are the rate times that apart.
    crate::agreement::lemma_row(w, k, n, i);
    crate::agreement::lemma_row(g, k, n, i);
    crate::agreement::lemma_row(next, k, n, i);
    let p = i * n + j;
    let (a, b) = (w.data[p], fmul(lr, g.data[p]));
    assert(next.row(i)[j as int] == fsub(a, b));
    lemma_apart(a, b);
    ring_mul(c, fmul(lr, at));
    ring_product(lr, at, c);
}

/// What is left after something was taken away lies that far off.
proof fn lemma_apart<T: Float>(a: T, b: T)
    requires
        ring::<T>(),
    ensures
        fsub(a, fsub(a, b)) == b,
{
    let c = fsub(a, b);
    ring_back(a, b);
    ring_back(a, c);
    ring_add(c, b);
    ring_cancel(fsub(a, c), b, c);
}

/// Twice a share, times the number of shares.
proof fn lemma_share<T: Float>(b: T, n: usize)
    requires
        ring::<T>(),
        shares_out::<T>(),
        n > 0,
    ensures
        ({
            let c = fcount::<T>(n);
            let f = fmul(fmul(fone::<T>(), fdiv(fone::<T>(), c)), b);
            fmul(fadd(f, f), c) == fadd(b, b)
        }),
{
    let c = fcount::<T>(n);
    let one = fone::<T>();
    let s = fdiv(one, c);
    exact_share(one, n);
    ring_mul(one, s);
    ring_product(s, one, one);
    let f = fmul(s, b);
    ring_spread(f, f, c);
    ring_product(s, b, c);
    ring_mul(b, c);
    ring_product(s, c, b);
    ring_mul(s, c);
    ring_mul(one, b);
    ring_product(b, one, one);
}

} // verus!
