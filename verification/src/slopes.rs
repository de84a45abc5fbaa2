//! What the gradients of the recorded operations are, in arithmetic without rounding.
//!
//! A linear operation hands back the adjoint: against any change of its input, what it
//! hands back weighs as much as the gradient does against the change of its result.
use crate::agreement::{grid, lemma_matrix_row, lemma_row};
use crate::autograd::{accumulate, contributions, entry_ok, Entry, Graph, NodeId, Step};
use crate::bitlinear::{restored_acts, ternary_weights};
use crate::exact::{
    divisor, exact_div, exact_share, lemma_dot_sum, lemma_sum_added, lemma_sum_joined, ring_back,
    ring_spreads, shares_out,
};
use crate::float::{
    deterministic, fadd, fbits, fcount, fdiv, fdot, flt, fmul, fneg, fone, fsub, fsum, fzero, Float,
};
use crate::identities::{
    lemma_squares, lemma_sum_scaled, mean_square, ring, ring_absorb, ring_add, ring_cancel,
    ring_mul, ring_neg, ring_product, ring_spread, ring_sub, ring_sum, ring_zero, squares_back,
};
use crate::linear::{
    inner, law_transpose_item, lemma_inner_rows, lemma_sum_zeros, lemma_table_same,
    lemma_table_step, table_sum,
};
use crate::ops::{
    causal_mask_of, embed_grad_of, embed_of, ids_below, loss_grad_rows, masked_rows, mean_loss,
    mean_of, picked_rows, relu_of, rms, rms_factor, rmsnorm_grad_row, rmsnorm_of, rmsnorm_row,
    rope_of, scattered, silu_of, softmax_grad_row, softmax_of, softmax_row, softmax_rows,
};
use crate::tensor::{add_of, matmul_of, mul_of, scale_of, sub_of, transpose_of, Array};
use vstd::prelude::*;

verus! {

/// Two inner products with the same products are the same.
proof fn lemma_inner_same<T: Float>(a: Array<T>, b: Array<T>, c: Array<T>, d: Array<T>)
    requires
        a.data.len() == c.data.len(),
        forall|k: int|
            0 <= k < a.data.len() ==> #[trigger] fmul(a.data[k], b.data[k]) == fmul(
                c.data[k],
                d.data[k],
            ),
    ensures
        inner(a, b) == inner(c, d),
{
    assert(Seq::new(a.data.len(), |k: int| fmul(a.data[k], b.data[k])) =~= Seq::new(
        c.data.len(),
        |k: int| fmul(c.data[k], d.data[k]),
    ));
}

/// The inner product with a sum.
proof fn lemma_inner_added<T: Float>(g: Array<T>, d: Array<T>, e: Array<T>)
    requires
        ring::<T>(),
        g.data.len() == d.data.len(),
        g.data.len() == e.data.len(),
    ensures
        inner(g, add_of(d, e)) == fadd(inner(g, d), inner(g, e)),
{
    let s = Seq::new(g.data.len(), |k: int| fmul(g.data[k], add_of(d, e).data[k]));
    let a = Seq::new(g.data.len(), |k: int| fmul(g.data[k], d.data[k]));
    let b = Seq::new(g.data.len(), |k: int| fmul(g.data[k], e.data[k]));
    assert forall|k: int| 0 <= k < s.len() implies #[trigger] s[k] == fadd(a[k], b[k]) by {
        ring_spread(d.data[k], e.data[k], g.data[k]);
    }
    lemma_sum_added(s, a, b);
}

/// A sum in an inner product with something.
pub proof fn lemma_added_inner<T: Float>(a: Array<T>, b: Array<T>, d: Array<T>)
    requires
        ring::<T>(),
        a.data.len() == b.data.len(),
        a.data.len() == d.data.len(),
    ensures
        inner(add_of(a, b), d) == fadd(inner(a, d), inner(b, d)),
{
    let s = Seq::new(a.data.len(), |k: int| fmul(add_of(a, b).data[k], d.data[k]));
    let x = Seq::new(a.data.len(), |k: int| fmul(a.data[k], d.data[k]));
    let y = Seq::new(b.data.len(), |k: int| fmul(b.data[k], d.data[k]));
    assert forall|k: int| 0 <= k < s.len() implies #[trigger] s[k] == fadd(x[k], y[k]) by {
        ring_spread(a.data[k], b.data[k], d.data[k]);
    }
    lemma_sum_added(s, x, y);
}

/// What a sum hands back to its two inputs weighs, against a change of both, as much as the
/// gradient against the change of the sum.
pub proof fn law_sum_gradient<T: Float>(
    t: Seq<Entry<T>>,
    i: int,
    g: Array<T>,
    d: Array<T>,
    e: Array<T>,
    a: usize,
    b: usize,
)
    requires
        ring::<T>(),
        t[i].step == Step::<T>::Add(a, b),
        g.data.len() == d.data.len(),
        g.data.len() == e.data.len(),
    ensures
        contributions(t, i, g).len() == 2,
        contributions(t, i, g)[0].0 == a,
        contributions(t, i, g)[1].0 == b,
        fadd(inner(contributions(t, i, g)[0].1, d), inner(contributions(t, i, g)[1].1, e))
            == inner(g, add_of(d, e)),
{
    lemma_inner_added(g, d, e);
}

/// The same of a difference.
pub proof fn law_difference_gradient<T: Float>(
    t: Seq<Entry<T>>,
    i: int,
    g: Array<T>,
    d: Array<T>,
    e: Array<T>,
    a: usize,
    b: usize,
)
    requires
        ring::<T>(),
        fbits::<T>(0xBF80_0000) == fneg(fone::<T>()),
        t[i].step == Step::<T>::Sub(a, b),
        g.data.len() == d.data.len(),
        g.data.len() == e.data.len(),
    ensures
        contributions(t, i, g).len() == 2,
        contributions(t, i, g)[0].0 == a,
        contributions(t, i, g)[1].0 == b,
        fadd(inner(contributions(t, i, g)[0].1, d), inner(contributions(t, i, g)[1].1, e))
            == inner(g, sub_of(d, e)),
{
    let one = fone::<T>();
    let f = Array { data: Seq::new(e.data.len(), |k: int| fneg(e.data[k])), dims: e.dims };
    let c = scale_of(g, fbits::<T>(0xBF80_0000));
    assert forall|k: int| 0 <= k < c.data.len() implies #[trigger] fmul(c.data[k], e.data[k])
        == fmul(g.data[k], f.data[k]) by {
        let (x, y) = (g.data[k], e.data[k]);
        ring_neg(one, x);
        ring_mul(x, fneg(one));
        ring_mul(one, x);
        ring_product(x, one, one);
        ring_neg(x, y);
        ring_neg(y, x);
        ring_mul(x, y);
        ring_mul(x, fneg(y));
    }
    lemma_inner_same(c, e, g, f);
    lemma_inner_added(g, d, f);
    assert forall|k: int| 0 <= k < g.data.len() implies #[trigger] fmul(
        g.data[k],
        add_of(d, f).data[k],
    ) == fmul(g.data[k], sub_of(d, e).data[k]) by {
        ring_sub(d.data[k], e.data[k]);
    }
    lemma_inner_same(g, add_of(d, f), g, sub_of(d, e));
}

/// What a product item by item hands back to its two inputs weighs, against a change of
/// both, as much as the gradient against the change that they make to the product.
pub proof fn law_item_product_gradient<T: Float>(
    t: Seq<Entry<T>>,
    i: int,
    g: Array<T>,
    d: Array<T>,
    e: Array<T>,
    a: usize,
    b: usize,
)
    requires
        ring::<T>(),
        t[i].step == Step::<T>::Mul(a, b),
        g.data.len() == d.data.len(),
        g.data.len() == e.data.len(),
        g.data.len() == t[a as int].value.data.len(),
        g.data.len() == t[b as int].value.data.len(),
    ensures
        contributions(t, i, g).len() == 2,
        contributions(t, i, g)[0].0 == a,
        contributions(t, i, g)[1].0 == b,
        inner(contributions(t, i, g)[0].1, d) == inner(g, mul_of(d, t[b as int].value)),
        inner(contributions(t, i, g)[1].1, e) == inner(g, mul_of(t[a as int].value, e)),
{
    let (x, y) = (t[a as int].value, t[b as int].value);
    assert forall|k: int| 0 <= k < g.data.len() implies #[trigger] fmul(
        mul_of(g, y).data[k],
        d.data[k],
    ) == fmul(g.data[k], mul_of(d, y).data[k]) by {
        ring_product(g.data[k], y.data[k], d.data[k]);
        ring_mul(y.data[k], d.data[k]);
    }
    lemma_inner_same(mul_of(g, y), d, g, mul_of(d, y));
    assert forall|k: int| 0 <= k < g.data.len() implies #[trigger] fmul(
        mul_of(g, x).data[k],
        e.data[k],
    ) == fmul(g.data[k], mul_of(x, e).data[k]) by {
        ring_product(g.data[k], x.data[k], e.data[k]);
    }
    lemma_inner_same(mul_of(g, x), e, g, mul_of(x, e));
}

/// What a product with a factor hands back is the adjoint.
pub proof fn law_factor_gradient<T: Float>(
    t: Seq<Entry<T>>,
    i: int,
    g: Array<T>,
    d: Array<T>,
    a: usize,
    s: T,
)
    requires
        ring::<T>(),
        t[i].step == Step::<T>::MulScalar(a, s),
        g.data.len() == d.data.len(),
    ensures
        contributions(t, i, g).len() == 1,
        contributions(t, i, g)[0].0 == a,
        inner(contributions(t, i, g)[0].1, d) == inner(g, scale_of(d, s)),
{
    assert forall|k: int| 0 <= k < g.data.len() implies #[trigger] fmul(
        scale_of(g, s).data[k],
        d.data[k],
    ) == fmul(g.data[k], scale_of(d, s).data[k]) by {
        ring_product(g.data[k], s, d.data[k]);
        ring_mul(s, d.data[k]);
    }
    lemma_inner_same(scale_of(g, s), d, g, scale_of(d, s));
}

/// What a transpose hands back is the gradient with rows and columns exchanged.
pub proof fn law_transpose_gradient<T: Float>(
    t: Seq<Entry<T>>,
    i: int,
    g: Array<T>,
    a: usize,
    m: usize,
    n: usize,
    j: nat,
    k: nat,
)
    requires
        t[i].step == Step::<T>::Transpose(a),
        grid(g, n, m),
        j < m,
        k < n,
    ensures
        contributions(t, i, g).len() == 1,
        contributions(t, i, g)[0].0 == a,
        contributions(t, i, g)[0].1.row(j)[k as int] == g.row(k)[j as int],
{
    law_transpose_item(g, n, m, k, j);
}

/// A mean times the number of items is their sum; and what it hands back is the adjoint.
pub proof fn law_mean_gradient<T: Float>(
    t: Seq<Entry<T>>,
    i: int,
    g: Array<T>,
    d: Array<T>,
    a: usize,
)
    requires
        ring::<T>(),
        shares_out::<T>(),
        t[i].step == Step::<T>::Mean(a),
        d.data.len() == t[a as int].value.data.len(),
        0 < d.data.len() <= usize::MAX,
    ensures
        fmul(fcount::<T>(d.data.len() as usize), mean_of(d).data[0]) == fsum(d.data),
        contributions(t, i, g).len() == 1,
        contributions(t, i, g)[0].0 == a,
        inner(contributions(t, i, g)[0].1, d) == fmul(g.data[0], mean_of(d).data[0]),
{
    let n = d.data.len() as usize;
    let c = fcount::<T>(n);
    exact_share(fsum(d.data), n);
    let h = contributions(t, i, g)[0].1;
    let q = fmul(g.data[0], fdiv(fone::<T>(), c));
    let s = Seq::new(h.data.len(), |k: int| fmul(h.data[k], d.data[k]));
    ring_spreads::<T>();
    assert forall|k: int| 0 <= k < s.len() implies #[trigger] s[k] == fmul(d.data[k], q) by {
        ring_mul(d.data[k], q);
    }
    lemma_sum_scaled(s, d.data, q);
    // sum (g / c) is g (sum / c).
    let (z, r) = (fsum(d.data), fdiv(fone::<T>(), c));
    exact_share(fone::<T>(), n);
    exact_share(fmul(z, r), n);
    ring_mul(c, fmul(z, r));
    ring_product(z, r, c);
    ring_mul(r, c);
    ring_product(z, c, c);
    assert(fmul(z, r) == fdiv(z, c));
    ring_mul(z, q);
    ring_product(g.data[0], r, z);
    ring_mul(r, z);
}

/// What a rectifier gives is its input where that is above zero and zero elsewhere, so that
/// those of a tensor and its negative differ by the tensor; and it hands the gradient back
/// there and nothing elsewhere.
pub proof fn law_rectifier_gradient<T: Float>(
    t: Seq<Entry<T>>,
    i: int,
    g: Array<T>,
    a: usize,
    k: int,
)
    requires
        t[i].step == Step::<T>::Relu(a),
        g.data.len() == t[a as int].value.data.len(),
        0 <= k < g.data.len(),
    ensures
        contributions(t, i, g).len() == 1,
        contributions(t, i, g)[0].0 == a,
        ({
            let x = t[a as int].value;
            if flt(fzero::<T>(), x.data[k]) {
                relu_of(x).data[k] == x.data[k] && contributions(t, i, g)[0].1.data[k] == g.data[k]
            } else {
                relu_of(x).data[k] == fzero::<T>() && contributions(t, i, g)[0].1.data[k]
                    == fzero::<T>()
            }
        }),
{
}

/// A causal mask hands nothing back to later places and the gradient to the others.
pub proof fn law_mask_gradient<T: Float>(
    t: Seq<Entry<T>>,
    i: int,
    g: Array<T>,
    a: usize,
    n: usize,
    r: nat,
    j: int,
)
    requires
        t[i].step == Step::<T>::CausalMask(a),
        grid(g, n, n),
        r < n,
        0 <= j < n,
    ensures
        contributions(t, i, g).len() == 1,
        contributions(t, i, g)[0].0 == a,
        j <= r ==> contributions(t, i, g)[0].1.row(r)[j] == g.row(r)[j],
        j > r ==> contributions(t, i, g)[0].1.row(r)[j] == fzero::<T>(),
{
    let z = fzero::<T>();
    lemma_row(g, n, n, r);
    assert forall|k: nat| k < n implies (#[trigger] masked_rows(g, z)(k)).len() == n by {
        lemma_row(g, n, n, k);
    }
    lemma_matrix_row(n, n, masked_rows(g, z), r);
}

/// The quantisers hand the gradient back as it is.
pub proof fn law_quantisers_pass_gradients<T: Float>(t: Seq<Entry<T>>, i: int, g: Array<T>, a: usize)
    requires
        t[i].step == Step::<T>::QuantiseWeights(a) || t[i].step == Step::<T>::QuantiseActs(a),
    ensures
        contributions(t, i, g) == seq![(a, g)],
{
}

/// A recorded value is what its step makes of the values of its inputs.
pub proof fn law_recorded_values<T: Float>(g: Graph<T>, i: int)
    requires
        deterministic::<T>(),
        g.wf(),
        0 <= i < g.nodes.len(),
    ensures
        ({
            let at = |k: usize| g.nodes[k as int].value;
            let v = g.nodes[i].value;
            match g.nodes[i].step {
                Step::Leaf => true,
                Step::Add(a, b) => v == add_of(at(a), at(b)) && a < i && b < i,
                Step::Sub(a, b) => v == sub_of(at(a), at(b)) && a < i && b < i,
                Step::Mul(a, b) => v == mul_of(at(a), at(b)) && a < i && b < i,
                Step::MatMul(a, b) => v == matmul_of(at(a), at(b)) && a < i && b < i,
                Step::Mean(a) => v == mean_of(at(a)) && a < i,
                Step::QuantiseWeights(a) => v == ternary_weights(at(a)) && a < i,
                Step::QuantiseActs(a) => v == restored_acts(at(a)) && a < i,
                Step::Transpose(a) => v == transpose_of(at(a)) && a < i,
                Step::Relu(a) => v == relu_of(at(a)) && a < i,
                Step::Silu(a) => v == silu_of(at(a)) && a < i,
                Step::Softmax(a) => v == softmax_of(at(a)) && a < i,
                Step::RmsNorm(a) => v == rmsnorm_of(at(a)) && a < i,
                Step::CausalMask(a) => v == causal_mask_of(at(a)) && a < i,
                Step::Rope(a) => v == rope_of(at(a)) && a < i,
                Step::MulScalar(a, s) => v == scale_of(at(a), s) && a < i,
                Step::Embed(a, ids) => v == embed_of(at(a), ids) && a < i,
                Step::CrossEntropy(a, targets) => v.data == seq![mean_loss(at(a), targets)] && a < i,
            }
        }),
{
    assert(entry_ok(g.nodes, i));
}

/// Contributions add up: one adds to the gradient of its node and leaves the others, and
/// some contributions followed by others add as all of them together.
pub proof fn law_contributions_add_up<T: Float>(
    grads: Seq<Array<T>>,
    c: Seq<(NodeId, Array<T>)>,
    e: Seq<(NodeId, Array<T>)>,
    p: NodeId,
    g: Array<T>,
    q: int,
)
    requires
        p < grads.len(),
        0 <= q < grads.len(),
    ensures
        accumulate(grads, c + e) == accumulate(accumulate(grads, c), e),
        accumulate(grads, seq![(p, g)])[q] == if q == p {
            add_of(grads[q], g)
        } else {
            grads[q]
        },
        accumulate(grads, seq![(p, g)]).len() == grads.len(),
    decreases e.len(),
{
    reveal_with_fuel(accumulate, 2);
    assert(seq![(p, g)].drop_last() =~= Seq::empty());
    if e.len() == 0 {
        assert(c + e =~= c);
    } else {
        law_contributions_add_up(grads, c, e.drop_last(), p, g, q);
        assert((c + e).drop_last() =~= c + e.drop_last());
        assert((c + e).last() == e.last());
    }
}

/// A common factor taken out of a difference.
proof fn lemma_difference_spread<T: Float>(p: T, a: T, b: T)
    requires
        ring::<T>(),
    ensures
        fsub(fmul(p, a), fmul(p, b)) == fmul(p, fsub(a, b)),
        fsub(fmul(a, p), fmul(b, p)) == fmul(fsub(a, b), p),
{
    ring_sub(a, b);
    ring_spread(a, fneg(b), p);
    ring_neg(b, p);
    ring_mul(b, p);
    ring_mul(a, p);
    ring_mul(fneg(b), p);
    ring_sub(fmul(p, a), fmul(p, b));
    ring_sub(fmul(a, p), fmul(b, p));
}

/// What is taken from both sides of a difference does not change it.
proof fn lemma_difference_shifted<T: Float>(a: T, b: T, d: T)
    requires
        ring::<T>(),
    ensures
        fsub(fsub(a, d), fsub(b, d)) == fsub(a, b),
{
    let (x, y) = (fsub(a, d), fsub(b, d));
    let r = fsub(x, y);
    // r + y = x, so r + b = a.
    ring_back(x, y);
    ring_back(a, d);
    ring_back(b, d);
    ring_sum(r, y, d);
    assert(fadd(r, b) == a);
    ring_back(a, b);
    ring_cancel(r, fsub(a, b), b);
}

/// What a softmax hands back is in all nothing, and two items of it, each over its weight,
/// differ by as much as the gradients.
pub proof fn law_softmax_gradient<T: Float>(g: Seq<T>, s: Seq<T>, j: int, k: int)
    requires
        ring::<T>(),
        g.len() == s.len(),
        fsum(s) == fone::<T>(),
        0 <= j < s.len(),
        0 <= k < s.len(),
    ensures
        softmax_grad_row(g, s).len() == s.len(),
        fsum(softmax_grad_row(g, s)) == fzero::<T>(),
        fsub(fmul(softmax_grad_row(g, s)[j], s[k]), fmul(softmax_grad_row(g, s)[k], s[j])) == fmul(
            fmul(s[j], s[k]),
            fsub(g[j], g[k]),
        ),
{
    let n = s.len();
    let d = fdot(g, s, n);
    let r = softmax_grad_row(g, s);
    let (x, y) = (fsub(g[j], d), fsub(g[k], d));
    let p = fmul(s[j], s[k]);
    ring_product(s[j], x, s[k]);
    ring_mul(x, s[k]);
    ring_product(s[j], s[k], x);
    ring_product(s[k], y, s[j]);
    ring_mul(y, s[j]);
    ring_product(s[k], s[j], y);
    ring_mul(s[j], s[k]);
    lemma_difference_spread(p, x, y);
    lemma_difference_shifted(g[j], g[k], d);
    // The sum.
    let a = Seq::new(n, |i: int| fmul(g[i], s[i]));
    let b = Seq::new(n, |i: int| fmul(s[i], fneg(d)));
    assert forall|i: int| 0 <= i < n implies #[trigger] r[i] == fadd(a[i], b[i]) by {
        ring_sub(g[i], d);
        ring_spread(g[i], fneg(d), s[i]);
        ring_mul(g[i], s[i]);
        ring_mul(fneg(d), s[i]);
    }
    lemma_sum_added(r, a, b);
    lemma_dot_sum(g, s, n);
    ring_spreads::<T>();
    lemma_sum_scaled(b, s, fneg(d));
    ring_mul(fone::<T>(), fneg(d));
    ring_product(fneg(d), fone::<T>(), fone::<T>());
    ring_zero(d);
}

/// What the mean loss hands back to a logit, times the number of rows, is the gradient
/// times the logit's probability, less one for the target.
pub proof fn law_loss_gradient<T: Float>(
    t: Seq<Entry<T>>,
    i: int,
    g: Array<T>,
    a: usize,
    targets: Seq<usize>,
    m: usize,
    v: usize,
    r: nat,
    j: int,
)
    requires
        ring::<T>(),
        shares_out::<T>(),
        t[i].step == Step::<T>::CrossEntropy(a, targets),
        grid(t[a as int].value, m, v),
        r < m,
        0 <= j < v,
    ensures
        contributions(t, i, g).len() == 1,
        contributions(t, i, g)[0].0 == a,
        fmul(fcount::<T>(m), contributions(t, i, g)[0].1.row(r)[j]) == fmul(
            fsub(
                softmax_row(t[a as int].value.row(r))[j],
                if j == targets[r as int] {
                    fone::<T>()
                } else {
                    fzero::<T>()
                },
            ),
            g.data[0],
        ),
{
    let x = t[a as int].value;
    let probs = softmax_of(x);
    let c = fcount::<T>(m);
    let q = fmul(g.data[0], fdiv(fone::<T>(), c));
    assert forall|k: nat| k < m implies (#[trigger] softmax_rows(x)(k)).len() == v by {
        lemma_row(x, m, v, k);
    }
    lemma_matrix_row(m, v, softmax_rows(x), r);
    let f = loss_grad_rows(probs, targets, q);
    assert forall|k: nat| k < m implies (#[trigger] f(k)).len() == v by {
        lemma_matrix_row(m, v, softmax_rows(x), k);
    }
    lemma_matrix_row(m, v, f, r);
    let p = probs.row(r)[j];
    ring_back(p, p);
    let e = if j == targets[r as int] { fsub(p, fone::<T>()) } else { p };
    exact_share(fone::<T>(), m);
    ring_mul(c, fmul(e, q));
    ring_product(e, q, c);
    ring_product(g.data[0], fdiv(fone::<T>(), c), c);
    ring_mul(fdiv(fone::<T>(), c), c);
    ring_product(g.data[0], c, c);
}

/// A normalised item times the root mean square is the item, and the square of the root
/// mean square, less its guard, times the number of items is the sum of their squares.
pub proof fn law_normalised_times_rms<T: Float>(x: Seq<T>, k: int)
    requires
        ring::<T>(),
        shares_out::<T>(),
        divisor(rms(x)),
        0 <= k < x.len() <= usize::MAX,
        squares_back(fadd(mean_square(x), fbits::<T>(0x3727_C5AC))),
    ensures
        rmsnorm_row(x).len() == x.len(),
        fmul(rmsnorm_row(x)[k], rms(x)) == x[k],
        fmul(
            fcount::<T>(x.len() as usize),
            fsub(fmul(rms(x), rms(x)), fbits::<T>(0x3727_C5AC)),
        ) == fdot(x, x, x.len()),
{
    let one = fone::<T>();
    let r = rms(x);
    exact_div(one, r);
    ring_product(x[k], fdiv(one, r), r);
    ring_mul(fdiv(one, r), r);
    ring_product(x[k], one, one);
    lemma_squares(x, x.len());
    let q = fdot(x, x, x.len());
    let c = fcount::<T>(x.len() as usize);
    exact_share(q, x.len() as usize);
    ring_back(fdiv(q, c), fbits::<T>(0x3727_C5AC));
}

/// What a normalisation hands back differs from the gradient over the root mean square only
/// along the row itself.
pub proof fn law_norm_gradient_across<T: Float>(g: Seq<T>, x: Seq<T>, j: int, k: int)
    requires
        ring::<T>(),
        g.len() == x.len(),
        0 <= j < x.len(),
        0 <= k < x.len(),
    ensures
        rmsnorm_grad_row(g, x).len() == x.len(),
        fsub(
            fmul(rmsnorm_grad_row(g, x)[j], x[k]),
            fmul(rmsnorm_grad_row(g, x)[k], x[j]),
        ) == fmul(
            fsub(fmul(g[j], x[k]), fmul(g[k], x[j])),
            fdiv(fone::<T>(), rms(x)),
        ),
{
    let inv = fdiv(fone::<T>(), rms(x));
    let f = rms_factor(g, x);
    // (g_j inv - x_j f) x_k is g_j x_k inv - x_j x_k f.
    lemma_difference_spread(x[k], fmul(g[j], inv), fmul(x[j], f));
    lemma_difference_spread(x[j], fmul(g[k], inv), fmul(x[k], f));
    ring_product(g[j], inv, x[k]);
    ring_mul(inv, x[k]);
    ring_product(g[j], x[k], inv);
    ring_product(g[k], inv, x[j]);
    ring_mul(inv, x[j]);
    ring_product(g[k], x[j], inv);
    ring_product(x[j], f, x[k]);
    ring_mul(f, x[k]);
    ring_product(x[k], f, x[j]);
    ring_mul(f, x[j]);
    ring_product(x[k], x[j], f);
    ring_product(x[j], x[k], f);
    ring_mul(x[j], x[k]);
    let (p, q) = (fmul(g[j], x[k]), fmul(g[k], x[j]));
    let m = fmul(fmul(x[j], x[k]), f);
    lemma_difference_shifted(fmul(p, inv), fmul(q, inv), m);
    lemma_difference_spread(inv, p, q);
}

/// Along the row itself a normalisation hands back next to nothing: the gradient's share of
/// the row over the cube of the root mean square, times the guard, since scaling a row
/// changes its normalised items only as far as the guard counts.
pub proof fn law_norm_gradient_along<T: Float>(g: Seq<T>, x: Seq<T>)
    requires
        ring::<T>(),
        shares_out::<T>(),
        divisor(rms(x)),
        g.len() == x.len(),
        0 < x.len() <= usize::MAX,
        squares_back(fadd(mean_square(x), fbits::<T>(0x3727_C5AC))),
    ensures
        ({
            let inv = fdiv(fone::<T>(), rms(x));
            fdot(x, rmsnorm_grad_row(g, x), x.len()) == fmul(
                fdot(x, g, x.len()),
                fmul(fmul(fmul(inv, inv), inv), fbits::<T>(0x3727_C5AC)),
            )
        }),
{
    let n = x.len();
    let one = fone::<T>();
    let r = rms(x);
    let inv = fdiv(one, r);
    let f = rms_factor(g, x);
    let c = fcount::<T>(n as usize);
    let d = fdot(x, g, n);
    let q = fdot(x, x, n);
    let eps = fbits::<T>(0x3727_C5AC);
    let cube = fmul(fmul(inv, inv), inv);
    let h = rmsnorm_grad_row(g, x);
    let a = Seq::new(n, |k: int| fmul(x[k], g[k]));
    let b = Seq::new(n, |k: int| fmul(x[k], x[k]));
    let ai = Seq::new(n, |k: int| fmul(a[k], inv));
    let bf = Seq::new(n, |k: int| fmul(b[k], fneg(f)));
    let s = Seq::new(n, |k: int| fmul(x[k], h[k]));
    lemma_dot_sum(x, g, n);
    lemma_dot_sum(x, x, n);
    lemma_dot_sum(x, h, n);
    assert forall|k: int| 0 <= k < n implies #[trigger] s[k] == fadd(ai[k], bf[k]) by {
        let (u, v) = (fmul(g[k], inv), fmul(x[k], f));
        lemma_difference_spread(x[k], u, v);
        ring_product(x[k], g[k], inv);
        ring_product(x[k], x[k], f);
        ring_sub(fmul(a[k], inv), fmul(b[k], f));
        ring_neg(f, b[k]);
        ring_mul(b[k], fneg(f));
        ring_mul(f, b[k]);
    }
    lemma_sum_added(s, ai, bf);
    ring_spreads::<T>();
    lemma_sum_scaled(ai, a, inv);
    lemma_sum_scaled(bf, b, fneg(f));
    assert(fdot(x, h, n) == fadd(fmul(d, inv), fmul(q, fneg(f))));
    // q f is d cube (r r - eps).
    law_normalised_times_rms(x, 0);
    let w = fsub(fmul(r, r), eps);
    exact_share(fmul(d, cube), n as usize);
    ring_mul(c, w);
    ring_product(w, c, f);
    ring_mul(w, fmul(d, cube));
    assert(fmul(q, f) == fmul(fmul(d, cube), w));
    // cube (r r) is inv.
    lemma_difference_spread(fmul(d, cube), fmul(r, r), eps);
    exact_div(one, r);
    ring_mul(inv, r);
    ring_product(fmul(inv, inv), inv, fmul(r, r));
    ring_product(inv, r, r);
    ring_product(r, one, one);
    ring_mul(one, r);
    ring_product(inv, inv, r);
    ring_product(inv, one, one);
    assert(fmul(inv, fmul(r, r)) == r);
    assert(fmul(cube, fmul(r, r)) == inv);
    ring_product(d, cube, fmul(r, r));
    ring_product(d, cube, eps);
    let (u, v) = (fmul(d, inv), fmul(fmul(d, cube), eps));
    assert(fmul(q, f) == fsub(u, v));
    ring_neg(f, q);
    ring_mul(q, fneg(f));
    ring_mul(q, f);
    // u - (u - v) is v.
    ring_sub(u, fsub(u, v));
    ring_back(u, v);
    ring_back(u, fsub(u, v));
    ring_add(fsub(u, v), v);
    ring_cancel(fsub(u, fsub(u, v)), v, fsub(u, v));
}

/// What a lookup hands back is the adjoint: every row of the table gets the gradients of
/// all places that looked it up.
pub proof fn law_lookup_gradient<T: Float>(
    g: Array<T>,
    w: Array<T>,
    d: Array<T>,
    ids: Seq<usize>,
    v: usize,
    h: usize,
)
    requires
        ring::<T>(),
        0 < ids.len() <= usize::MAX,
        ids_below(ids, v),
        grid(w, v, h),
        grid(d, v, h),
        grid(g, ids.len() as usize, h),
    ensures
        inner(embed_grad_of(g, w, ids), d) == inner(g, embed_of(d, ids)),
        embed_grad_of(g, w, ids).dims == w.dims,
        embed_grad_of(g, w, ids).data.len() == w.data.len(),
{
    let n = ids.len() as usize;
    let e = embed_of(d, ids);
    assert forall|k: nat| k < n implies (#[trigger] picked_rows(d, ids)(k)).len() == h by {
        assert(ids[k as int] < v);
        lemma_row(d, v, h, ids[k as int] as nat);
    }
    lemma_matrix_row(n, h, picked_rows(d, ids), 0);
    lemma_inner_rows(g, e, n, h);
    lemma_scattered_weighs(g, d, ids, v, h, ids.len());
    let p = |r: int, j: int| fmul(g.row(r as nat)[j], e.row(r as nat)[j]);
    let q = |r: int, j: int| fmul(g.row(r as nat)[j], d.row(ids[r] as nat)[j]);
    assert forall|r: int, j: int| 0 <= r < n && 0 <= j < h implies #[trigger] p(r, j) == q(r, j) by {
        lemma_matrix_row(n, h, picked_rows(d, ids), r as nat);
    }
    lemma_table_same(n as nat, h as nat, p, q);
}

/// The same of a recorded lookup.
pub proof fn law_recorded_lookup_gradient<T: Float>(
    t: Seq<Entry<T>>,
    i: int,
    g: Array<T>,
    d: Array<T>,
    a: usize,
    ids: Seq<usize>,
    v: usize,
    h: usize,
)
    requires
        ring::<T>(),
        t[i].step == Step::<T>::Embed(a, ids),
        0 < ids.len() <= usize::MAX,
        ids_below(ids, v),
        grid(t[a as int].value, v, h),
        grid(d, v, h),
        grid(g, ids.len() as usize, h),
    ensures
        contributions(t, i, g).len() == 1,
        contributions(t, i, g)[0].0 == a,
        inner(contributions(t, i, g)[0].1, d) == inner(g, embed_of(d, ids)),
{
    law_lookup_gradient(g, t[a as int].value, d, ids, v, h);
}

/// What the first `q` places of a lookup hand back, against a change of the table.
proof fn lemma_scattered_weighs<T: Float>(
    g: Array<T>,
    d: Array<T>,
    ids: Seq<usize>,
    v: usize,
    h: usize,
    q: nat,
)
    requires
        ring::<T>(),
        ids.len() <= usize::MAX,
        ids_below(ids, v),
        grid(d, v, h),
        grid(g, ids.len() as usize, h),
        q <= ids.len(),
    ensures
        ({
            let s = scattered(d.data.len(), h, ids, g.data, q);
            &&& s.len() == d.data.len()
            &&& fsum(Seq::new(s.len(), |k: int| fmul(s[k], d.data[k]))) == table_sum(
                q,
                h as nat,
                |r: int, j: int| fmul(g.row(r as nat)[j], d.row(ids[r] as nat)[j]),
            )
        }),
    decreases q,
{
    let size = d.data.len();
    let s = scattered(size, h, ids, g.data, q);
    let x = Seq::new(s.len(), |k: int| fmul(s[k], d.data[k]));
    let f = |r: int, j: int| fmul(g.row(r as nat)[j], d.row(ids[r] as nat)[j]);
    if q == 0 {
        assert forall|k: int| 0 <= k < x.len() implies #[trigger] x[k] == fzero::<T>() by {
            ring_absorb(d.data[k]);
        }
        lemma_sum_zeros(x);
        assert(Seq::new(0, |i: int| fsum(Seq::new(h as nat, |j: int| f(i, j)))) =~= Seq::empty());
    } else {
        let p = (q - 1) as nat;
        let id = ids[p as int];
        assert(ids[p as int] < v);
        lemma_scattered_weighs(g, d, ids, v, h, p);
        lemma_table_step(q, h as nat, f);
        lemma_row(d, v, h, id as nat);
        lemma_row(g, ids.len() as usize, h, p);
        let at = id * h;
        let before = scattered(size, h, ids, g.data, p);
        let y = Seq::new(before.len(), |k: int| fmul(before[k], d.data[k]));
        let mid = Seq::new(h as nat, |j: int| f(p as int, j));
        let low = Seq::new(at as nat, |k: int| fzero::<T>());
        let high = Seq::new((size - at - h) as nat, |k: int| fzero::<T>());
        let e = low + mid + high;
        assert forall|k: int| 0 <= k < x.len() implies #[trigger] x[k] == fadd(y[k], e[k]) by {
            if at <= k < at + h {
                let j = k - at;
                assert(e[k] == mid[j]);
                assert(g.row(p)[j] == g.data[p * h + j]);
                assert(d.row(id as nat)[j] == d.data[id * h + j]);
                ring_spread(before[k], g.data[p * h + j], d.data[k]);
            } else {
                assert(e[k] == fzero::<T>());
                ring_zero(y[k]);
            }
        }
        lemma_sum_added(x, y, e);
        lemma_sum_joined(low + mid, high);
        lemma_sum_joined(low, mid);
        lemma_sum_zeros(low);
        lemma_sum_zeros(high);
        ring_zero(fsum(mid));
        ring_add(fzero::<T>(), fsum(mid));
        assert(mid =~= Seq::new(h as nat, |j: int| f(q - 1, j)));
    }
}

} // verus!
