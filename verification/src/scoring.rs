//! What scores mean: the loss of a window, the mean over a batch, and the perplexity of
//! an evaluation.
use crate::exact::{
    counts, exact_count, exact_exp, exact_share, exps_multiply, lemma_sum_constant,
    lemma_sum_exchanged, lemma_sum_joined, ring_back, ring_spreads, shares_out,
};
use crate::float::{fadd, fcount, fexp, fln, fmul, fneg, fone, fsub, fsum, fzero, Float};
use crate::identities::{
    lemma_neg_sum, lemma_sum_scaled, ring, ring_add, ring_mul, ring_neg, ring_product, ring_sub,
    ring_zero,
};
use crate::model::{logits_of, Model};
use crate::ops::{mean_loss, row_loss, row_max, shifted_exps};
use crate::tensor::{lemma_row_end, lemma_volume2, Array, Tensor};
use crate::train::{averaged, eval_sum, grad_sum, loss_sum, perplexity_of, window_loss};
use vstd::prelude::*;

verus! {

/// The logarithm of the sum of the exponentials of a row.
pub open spec fn log_sum_exp<T: Float>(s: Seq<T>) -> T {
    fln(fsum(Seq::new(s.len(), |k: int| fexp(s[k]))))
}

/// The logarithm takes the largest item of a row out of the sum of its exponentials.
pub open spec fn log_splits<T: Float>(s: Seq<T>) -> bool {
    let (m, total) = (row_max(s), fsum(shifted_exps(s)));
    fln(fmul(fexp(m), total)) == fadd(m, fln(total))
}

/// The loss of a row is its log-sum-exp less the logit of the target.
proof fn lemma_row_loss<T: Float>(s: Seq<T>, t: usize)
    requires
        ring::<T>(),
        exps_multiply::<T>(),
        log_splits(s),
    ensures
        row_loss(s, t) == fsub(log_sum_exp(s), s[t as int]),
{
    let m = row_max(s);
    let e = shifted_exps(s);
    let plain = Seq::new(s.len(), |k: int| fexp(s[k]));
    ring_spreads::<T>();
    assert forall|k: int| 0 <= k < s.len() implies #[trigger] plain[k] == fmul(e[k], fexp(m)) by {
        exact_exp(fsub(s[k], m), m);
        ring_back(s[k], m);
    }
    lemma_sum_scaled(plain, e, fexp(m));
    ring_mul(fsum(e), fexp(m));
    let (a, l) = (s[t as int], log_sum_exp(s));
    assert(l == fadd(m, fln(fsum(e))));
    // The negative of a difference is the difference the other way round.
    ring_sub(a, l);
    ring_sub(l, a);
    lemma_neg_sum(a, fneg(l));
    ring_neg(l, l);
    ring_add(fneg(a), l);
}

/// The losses of the rows of a matrix, by what they are.
pub open spec fn row_costs<T: Float>(x: Array<T>, targets: Seq<usize>) -> Seq<T> {
    Seq::new(
        x.dims[0] as nat,
        |i: int| fsub(log_sum_exp(x.row(i as nat)), x.row(i as nat)[targets[i] as int]),
    )
}

/// The logarithm takes the largest item out in every row.
pub open spec fn logs_split<T: Float>(x: Array<T>) -> bool {
    forall|i: nat| i < x.dims[0] ==> log_splits(#[trigger] x.row(i))
}

/// The loss of a window is the mean, over all its rows, of the log-sum-exp of the row less
/// the logit of that row's target.
pub proof fn law_loss_is_mean_cost<T: Float>(x: Array<T>, targets: Seq<usize>)
    requires
        ring::<T>(),
        exps_multiply::<T>(),
        shares_out::<T>(),
        logs_split(x),
        x.dims.len() == 2,
        x.dims[0] > 0,
        targets.len() == x.dims[0],
    ensures
        fmul(fcount::<T>(x.dims[0]), mean_loss(x, targets)) == fsum(row_costs(x, targets)),
{
    let losses = Seq::new(x.dims[0] as nat, |i: int| row_loss(x.row(i as nat), targets[i]));
    assert forall|i: int| 0 <= i < losses.len() implies #[trigger] losses[i] == row_costs(
        x,
        targets,
    )[i] by {
        assert(log_splits(x.row(i as nat)));
        lemma_row_loss(x.row(i as nat), targets[i]);
    }
    assert(losses =~= row_costs(x, targets));
    exact_share(fsum(losses), x.dims[0]);
}

/// The loss of one row is its log-sum-exp less the logit of the target.
pub proof fn law_loss_of_one_row<T: Float>(x: Array<T>, t: usize)
    requires
        ring::<T>(),
        counts::<T>(),
        exps_multiply::<T>(),
        shares_out::<T>(),
        log_splits(x.data),
        x.wf(),
        x.dims.len() == 2,
        x.dims[0] == 1,
        t < x.dims[1],
    ensures
        mean_loss(x, seq![t]) == fsub(log_sum_exp(x.data), x.data[t as int]),
{
    lemma_volume2(x.dims);
    assert(x.row(0) =~= x.data);
    assert forall|i: nat| i < x.dims[0] implies log_splits(#[trigger] x.row(i)) by {
        assert(i == 0);
    }
    law_loss_is_mean_cost(x, seq![t]);
    let c = fsub(log_sum_exp(x.data), x.data[t as int]);
    let costs = row_costs(x, seq![t]);
    assert(costs =~= seq![c]);
    assert(costs.drop_last() =~= Seq::<T>::empty());
    reveal_with_fuel(fsum, 2);
    assert(fsum(costs) == fadd(fzero::<T>(), c));
    ring_zero(c);
    exact_count::<T>(0, 1);
    ring_mul(fone::<T>(), mean_loss(x, seq![t]));
    ring_product(mean_loss(x, seq![t]), c, c);
}

/// The first `m` rows of a matrix.
pub open spec fn upper_rows<T>(x: Array<T>, m: usize) -> Array<T> {
    Array { data: x.data.take(m * x.dims[1]), dims: seq![m, x.dims[1]] }
}

/// The rows of a matrix from row `m` on.
pub open spec fn lower_rows<T>(x: Array<T>, m: usize) -> Array<T> {
    Array { data: x.data.skip(m * x.dims[1]), dims: seq![(x.dims[0] - m) as usize, x.dims[1]] }
}

/// The rows of the two parts of a matrix are its rows.
proof fn lemma_parted_rows<T>(x: Array<T>, m: usize, i: nat)
    requires
        x.wf(),
        x.dims.len() == 2,
        m <= x.dims[0],
    ensures
        i < m ==> upper_rows(x, m).row(i) == x.row(i),
        m + i < x.dims[0] ==> lower_rows(x, m).row(i) == x.row((m + i) as nat),
{
    let (r, v) = (x.dims[0] as int, x.dims[1] as int);
    lemma_volume2(x.dims);
    assert(0 <= m * v <= r * v) by (nonlinear_arith)
        requires
            0 <= m <= r,
            0 <= v,
    ;
    if i < m {
        lemma_row_end(i as int, m as int, v);
        assert(0 <= i * v) by (nonlinear_arith)
            requires
                0 <= v,
        ;
        assert(upper_rows(x, m).row(i) =~= x.row(i));
    }
    if m + i < r {
        lemma_row_end(m + i, r, v);
        assert((m + i) * v == m * v + i * v) by (nonlinear_arith);
        assert(0 <= i * v) by (nonlinear_arith)
            requires
                0 <= v,
        ;
        assert(lower_rows(x, m).row(i) =~= x.row((m + i) as nat));
    }
}

/// The loss takes in every row alike: that of a window, times its rows, is that of its
/// first part, times the rows of it, and that of the rest, times the rows of it.
pub proof fn law_loss_takes_in_every_row<T: Float>(x: Array<T>, targets: Seq<usize>, m: usize)
    requires
        ring::<T>(),
        shares_out::<T>(),
        x.wf(),
        x.dims.len() == 2,
        0 < m < x.dims[0],
        targets.len() == x.dims[0],
    ensures
        fmul(fcount::<T>(x.dims[0]), mean_loss(x, targets)) == fadd(
            fmul(fcount::<T>(m), mean_loss(upper_rows(x, m), targets.take(m as int))),
            fmul(
                fcount::<T>((x.dims[0] - m) as usize),
                mean_loss(lower_rows(x, m), targets.skip(m as int)),
            ),
        ),
{
    let n = (x.dims[0] - m) as usize;
    let (a, b) = (upper_rows(x, m), lower_rows(x, m));
    let all = Seq::new(x.dims[0] as nat, |i: int| row_loss(x.row(i as nat), targets[i]));
    let first = Seq::new(m as nat, |i: int| row_loss(a.row(i as nat), targets.take(m as int)[i]));
    let rest = Seq::new(n as nat, |i: int| row_loss(b.row(i as nat), targets.skip(m as int)[i]));
    assert forall|i: int| 0 <= i < all.len() implies #[trigger] all[i] == (first + rest)[i] by {
        if i < m {
            lemma_parted_rows(x, m, i as nat);
        } else {
            lemma_parted_rows(x, m, (i - m) as nat);
        }
    }
    assert(all =~= first + rest);
    lemma_sum_joined(first, rest);
    exact_share(fsum(all), x.dims[0]);
    exact_share(fsum(first), m);
    exact_share(fsum(rest), n);
}

/// The loss of a window of ids is the mean cost of its targets under the logits that the
/// model gives for its inputs.
pub proof fn law_window_loss_scores_targets<T: Float>(
    m: Model<T>,
    input: Seq<usize>,
    target: Seq<usize>,
)
    requires
        ring::<T>(),
        exps_multiply::<T>(),
        shares_out::<T>(),
        logs_split(logits_of(m@, input, m.config.head_dim)),
        logits_of(m@, input, m.config.head_dim).dims.len() == 2,
        logits_of(m@, input, m.config.head_dim).dims[0] == input.len(),
        input.len() > 0,
        target.len() == input.len(),
    ensures
        fmul(fcount::<T>(input.len() as usize), window_loss(m, input, target)) == fsum(
            Seq::new(
                input.len(),
                |i: int|
                    fsub(
                        log_sum_exp(logits_of(m@, input, m.config.head_dim).row(i as nat)),
                        logits_of(m@, input, m.config.head_dim).row(i as nat)[target[i] as int],
                    ),
            ),
        ),
{
    let x = logits_of(m@, input, m.config.head_dim);
    law_loss_is_mean_cost(x, target);
    assert(row_costs(x, target) =~= Seq::new(
        input.len(),
        |i: int| fsub(log_sum_exp(x.row(i as nat)), x.row(i as nat)[target[i] as int]),
    ));
}

/// Item `i` of weight `k` in every result.
pub open spec fn column<T: Float>(rs: Seq<(Vec<Tensor<T>>, T)>, k: int, i: int) -> Seq<T> {
    Seq::new(rs.len(), |w: int| rs[w].0@[k].data@[i])
}

/// The losses of all results.
pub open spec fn losses_of<T: Float>(rs: Seq<(Vec<Tensor<T>>, T)>) -> Seq<T> {
    Seq::new(rs.len(), |w: int| rs[w].1)
}

/// Every result has a gradient for each weight, of one number of items.
pub open spec fn level<T: Float>(rs: Seq<(Vec<Tensor<T>>, T)>) -> bool {
    forall|w: int, k: int|
        #![trigger rs[w].0@[k]]
        0 <= w < rs.len() && 0 <= k < rs[0].0@.len() ==> rs[w].0@[k].data@.len()
            == rs[0].0@[k].data@.len()
}

/// An added-up gradient is the sum of its items.
proof fn lemma_grad_sum<T: Float>(rs: Seq<(Vec<Tensor<T>>, T)>, k: int, i: int, n: nat)
    requires
        ring::<T>(),
        level(rs),
        1 <= n <= rs.len(),
        0 <= k < rs[0].0@.len(),
        0 <= i < rs[0].0@[k].data@.len(),
    ensures
        grad_sum(rs, k, n).data.len() == rs[0].0@[k].data@.len(),
        grad_sum(rs, k, n).data[i] == fsum(column(rs, k, i).take(n as int)),
    decreases n,
{
    let c = column(rs, k, i);
    let t = c.take(n as int);
    assert(t.drop_last() =~= c.take(n - 1));
    assert(rs[n - 1].0@[k].data@.len() == rs[0].0@[k].data@.len());
    if n == 1 {
        reveal_with_fuel(fsum, 2);
        assert(c.take(0) =~= Seq::<T>::empty());
        ring_zero(c[0]);
    } else {
        lemma_grad_sum(rs, k, i, (n - 1) as nat);
    }
}

/// An added-up loss is the sum of the losses.
proof fn lemma_loss_sum<T: Float>(rs: Seq<(Vec<Tensor<T>>, T)>, n: nat)
    requires
        ring::<T>(),
        1 <= n <= rs.len(),
    ensures
        loss_sum(rs, n) == fsum(losses_of(rs).take(n as int)),
    decreases n,
{
    let c = losses_of(rs);
    let t = c.take(n as int);
    assert(t.drop_last() =~= c.take(n - 1));
    if n == 1 {
        reveal_with_fuel(fsum, 2);
        assert(c.take(0) =~= Seq::<T>::empty());
        ring_zero(c[0]);
    } else {
        lemma_loss_sum(rs, (n - 1) as nat);
    }
}

/// Every window of a batch has an equal share in the mean: the number of results times an
/// item of an averaged gradient is the sum of that item over all results, and so for the
/// loss.
pub proof fn law_average_shares_equally<T: Float>(
    rs: Seq<(Vec<Tensor<T>>, T)>,
    r: (Seq<Tensor<T>>, T),
    k: int,
    i: int,
)
    requires
        ring::<T>(),
        shares_out::<T>(),
        level(rs),
        averaged(rs, r),
        0 < rs.len() <= usize::MAX,
        0 <= k < rs[0].0@.len(),
        0 <= i < rs[0].0@[k].data@.len(),
    ensures
        r.0.len() == rs[0].0@.len(),
        r.0[k].data@.len() == rs[0].0@[k].data@.len(),
        fmul(fcount::<T>(rs.len() as usize), r.0[k].data@[i]) == fsum(column(rs, k, i)),
        fmul(fcount::<T>(rs.len() as usize), r.1) == fsum(losses_of(rs)),
{
    let n = rs.len() as usize;
    lemma_grad_sum(rs, k, i, rs.len());
    lemma_loss_sum(rs, rs.len());
    assert(column(rs, k, i).take(rs.len() as int) =~= column(rs, k, i));
    assert(losses_of(rs).take(rs.len() as int) =~= losses_of(rs));
    assert(r.0[k]@.data == r.0[k].data@);
    exact_share(fsum(column(rs, k, i)), n);
    exact_share(fsum(losses_of(rs)), n);
}

/// The order of the results does not matter to their mean: exchanging two leaves every
/// averaged item and the loss as they are.
pub proof fn law_average_ignores_order<T: Float>(
    rs: Seq<(Vec<Tensor<T>>, T)>,
    r: (Seq<Tensor<T>>, T),
    q: (Seq<Tensor<T>>, T),
    u: int,
    w: int,
    k: int,
    i: int,
)
    requires
        ring::<T>(),
        shares_out::<T>(),
        level(rs),
        rs.len() <= usize::MAX,
        0 <= u < rs.len(),
        0 <= w < rs.len(),
        forall|v: int| 0 <= v < rs.len() ==> (#[trigger] rs[v]).0@.len() == rs[0].0@.len(),
        averaged(rs, r),
        averaged(rs.update(u, rs[w]).update(w, rs[u]), q),
        0 <= k < rs[0].0@.len(),
        0 <= i < rs[0].0@[k].data@.len(),
    ensures
        q.0[k].data@[i] == r.0[k].data@[i],
        q.1 == r.1,
{
    let n = rs.len() as usize;
    let ps = rs.update(u, rs[w]).update(w, rs[u]);
    assert(ps[0].0@.len() == rs[0].0@.len());
    assert forall|v: int, j: int|
        #![trigger ps[v].0@[j]]
        0 <= v < ps.len() && 0 <= j < ps[0].0@.len() implies ps[v].0@[j].data@.len()
        == ps[0].0@[j].data@.len() by {
        assert(rs[u].0@[j].data@.len() == rs[0].0@[j].data@.len());
        assert(rs[w].0@[j].data@.len() == rs[0].0@[j].data@.len());
        assert(rs[v].0@[j].data@.len() == rs[0].0@[j].data@.len());
    }
    assert(ps[0].0@[k].data@.len() == rs[0].0@[k].data@.len()) by {
        assert(rs[u].0@[k].data@.len() == rs[0].0@[k].data@.len());
        assert(rs[w].0@[k].data@.len() == rs[0].0@[k].data@.len());
    }
    law_average_shares_equally(rs, r, k, i);
    law_average_shares_equally(ps, q, k, i);
    let c = column(rs, k, i);
    let l = losses_of(rs);
    assert(column(ps, k, i) =~= c.update(u, c[w]).update(w, c[u]));
    assert(losses_of(ps) =~= l.update(u, l[w]).update(w, l[u]));
    lemma_sum_exchanged(c, u, w);
    lemma_sum_exchanged(l, u, w);
    exact_share(r.0[k].data@[i], n);
    exact_share(q.0[k].data@[i], n);
    exact_share(r.1, n);
    exact_share(q.1, n);
}

/// How many windows an evaluation looks at: as many as asked for, but no more than there
/// are.
pub open spec fn looked_at(n_windows: nat, n_samples: usize) -> nat {
    if n_samples < n_windows {
        n_samples as nat
    } else {
        n_windows
    }
}

/// The losses of the first `k` windows of an evaluation, as a list.
proof fn lemma_eval_sum<T: Float>(
    m: Model<T>,
    ws: Seq<(Vec<usize>, Vec<usize>)>,
    stride: nat,
    k: nat,
)
    ensures
        eval_sum(m, ws, stride, k) == fsum(
            Seq::new(
                k,
                |j: int| window_loss(m, ws[(j * stride) as int].0@, ws[(j * stride) as int].1@),
            ),
        ),
    decreases k,
{
    let s = Seq::new(
        k,
        |j: int| window_loss(m, ws[(j * stride) as int].0@, ws[(j * stride) as int].1@),
    );
    if k > 0 {
        lemma_eval_sum(m, ws, stride, (k - 1) as nat);
        assert(s.drop_last() =~= Seq::new(
            (k - 1) as nat,
            |j: int| window_loss(m, ws[(j * stride) as int].0@, ws[(j * stride) as int].1@),
        ));
        assert(((k - 1) as nat * stride) as int == (k - 1) * stride);
    }
}

/// The windows of an evaluation lie evenly over those there are: the losses it takes in
/// are those of every so-manieth window, and their mean is the first number it gives.
pub proof fn law_evaluation_is_mean_loss<T: Float>(
    m: Model<T>,
    ws: Seq<(Vec<usize>, Vec<usize>)>,
    n_samples: usize,
)
    requires
        shares_out::<T>(),
        0 < ws.len() <= usize::MAX,
        n_samples > 0,
    ensures
        ({
            let c = looked_at(ws.len(), n_samples);
            let apart = (ws.len() / c) as int;
            &&& 0 < c <= ws.len()
            &&& fmul(
                fcount::<T>(c as usize),
                perplexity_of(m, ws, n_samples).0,
            ) == fsum(
                Seq::new(c, |j: int| window_loss(m, ws[j * apart].0@, ws[j * apart].1@)),
            )
        }),
{
    let c = looked_at(ws.len(), n_samples);
    let apart = ws.len() / c;
    assert(apart >= 1) by (nonlinear_arith)
        requires
            0 < c <= ws.len(),
            apart == ws.len() / c,
    ;
    lemma_eval_sum(m, ws, apart, c);
    let s = Seq::new(
        c,
        |j: int| window_loss(m, ws[(j * apart) as int].0@, ws[(j * apart) as int].1@),
    );
    assert(s =~= Seq::new(
        c,
        |j: int| window_loss(m, ws[j * (apart as int)].0@, ws[j * (apart as int)].1@),
    ));
    exact_share(fsum(s), c as usize);
}

/// The second number of an evaluation is the exponential of the first; so its logarithm is
/// the mean loss.
pub proof fn law_perplexity_is_exponential<T: Float>(
    m: Model<T>,
    ws: Seq<(Vec<usize>, Vec<usize>)>,
    n_samples: usize,
)
    requires
        ws.len() > 0,
        n_samples > 0,
    ensures
        perplexity_of(m, ws, n_samples).1 == fexp(perplexity_of(m, ws, n_samples).0),
        fln(fexp(perplexity_of(m, ws, n_samples).0)) == perplexity_of(m, ws, n_samples).0 ==> fln(
            perplexity_of(m, ws, n_samples).1,
        ) == perplexity_of(m, ws, n_samples).0,
{
}

/// A row is one repeated number, which the logarithm takes out of the sum of its
/// exponentials.
pub open spec fn even_row<T: Float>(s: Seq<T>, n: usize) -> bool {
    &&& s.len() == n
    &&& forall|k: int| 0 <= k < n ==> #[trigger] s[k] == s[0]
    &&& fln(fmul(fexp(s[0]), fcount::<T>(n))) == fadd(s[0], fln(fcount::<T>(n)))
}

/// Every row of a matrix is one repeated number.
pub open spec fn even_rows<T: Float>(x: Array<T>) -> bool {
    forall|i: nat| i < x.dims[0] ==> even_row(#[trigger] x.row(i), x.dims[1])
}

/// The loss of even logits is the logarithm of the number of tokens.
pub proof fn law_even_logits_cost_log_vocabulary<T: Float>(x: Array<T>, targets: Seq<usize>)
    requires
        ring::<T>(),
        counts::<T>(),
        exps_multiply::<T>(),
        shares_out::<T>(),
        logs_split(x),
        even_rows(x),
        x.dims.len() == 2,
        x.dims[0] > 0,
        targets.len() == x.dims[0],
        forall|i: int| 0 <= i < targets.len() ==> #[trigger] targets[i] < x.dims[1],
    ensures
        mean_loss(x, targets) == fln(fcount::<T>(x.dims[1])),
{
    let v = x.dims[1];
    let l = fln(fcount::<T>(v));
    let costs = row_costs(x, targets);
    law_loss_is_mean_cost(x, targets);
    assert forall|i: int| 0 <= i < costs.len() implies #[trigger] costs[i] == l by {
        let s = x.row(i as nat);
        assert(targets[i] < v);
        assert(even_row(s, v));
        let a = s[0];
        let e = Seq::new(s.len(), |k: int| fexp(s[k]));
        assert forall|k: int| 0 <= k < e.len() implies #[trigger] e[k] == fexp(a) by {
            assert(s[k] == a);
        }
        lemma_sum_constant(e, fexp(a));
        ring_mul(fcount::<T>(v), fexp(a));
        assert(s[targets[i] as int] == a);
        ring_add(a, l);
        ring_back(l, a);
    }
    lemma_sum_constant(costs, l);
    exact_share(mean_loss(x, targets), x.dims[0]);
    exact_share(l, x.dims[0]);
}

/// A model gives all of `vocab` tokens the same logit at every place of a window.
pub open spec fn even_window<T: Float>(
    m: Model<T>,
    w: (Vec<usize>, Vec<usize>),
    vocab: usize,
) -> bool {
    let x = logits_of(m@, w.0@, m.config.head_dim);
    &&& 0 < w.0@.len() <= usize::MAX
    &&& x.dims == seq![w.0@.len() as usize, vocab]
    &&& w.1@.len() == w.0@.len()
    &&& logs_split(x)
    &&& even_rows(x)
    &&& forall|i: int| 0 <= i < w.1@.len() ==> #[trigger] w.1@[i] < vocab
}

/// The loss of an even window.
proof fn lemma_even_window<T: Float>(m: Model<T>, w: (Vec<usize>, Vec<usize>), vocab: usize)
    requires
        ring::<T>(),
        counts::<T>(),
        exps_multiply::<T>(),
        shares_out::<T>(),
        even_window(m, w, vocab),
    ensures
        window_loss(m, w.0@, w.1@) == fln(fcount::<T>(vocab)),
{
    law_even_logits_cost_log_vocabulary(logits_of(m@, w.0@, m.config.head_dim), w.1@);
}

/// Evenly spaced places lie among those there are.
proof fn lemma_spaced(n: nat, c: nat, j: int)
    requires
        0 < c <= n,
        0 <= j < c,
    ensures
        0 <= j * (n / c) < n,
{
    vstd::arithmetic::div_mod::lemma_fundamental_div_mod(n as int, c as int);
    let q = (n / c) as int;
    assert(q >= 1) by (nonlinear_arith)
        requires
            0 < c <= n,
            q == n / c,
    ;
    assert(0 <= j * q < n) by (nonlinear_arith)
        requires
            0 <= j < c,
            q >= 1,
            c * q <= n,
    ;
}

/// A model that gives all of its tokens the same logit has the perplexity of its
/// vocabulary.
pub proof fn law_even_model_has_perplexity_of_vocabulary<T: Float>(
    m: Model<T>,
    ws: Seq<(Vec<usize>, Vec<usize>)>,
    n_samples: usize,
    vocab: usize,
)
    requires
        ring::<T>(),
        counts::<T>(),
        exps_multiply::<T>(),
        shares_out::<T>(),
        0 < ws.len() <= usize::MAX,
        n_samples > 0,
        fexp(fln(fcount::<T>(vocab))) == fcount::<T>(vocab),
        forall|w: int| 0 <= w < ws.len() ==> even_window(m, #[trigger] ws[w], vocab),
    ensures
        perplexity_of(m, ws, n_samples).1 == fcount::<T>(vocab),
{
    let c = looked_at(ws.len(), n_samples);
    let apart = (ws.len() / c) as int;
    let l = fln(fcount::<T>(vocab));
    law_evaluation_is_mean_loss(m, ws, n_samples);
    let s = Seq::new(c, |j: int| window_loss(m, ws[j * apart].0@, ws[j * apart].1@));
    assert forall|j: int| 0 <= j < c implies #[trigger] s[j] == l by {
        lemma_spaced(ws.len(), c, j);
        lemma_even_window(m, ws[j * apart], vocab);
    }
    lemma_sum_constant(s, l);
    exact_share(perplexity_of(m, ws, n_samples).0, c as usize);
    exact_share(l, c as usize);
    law_perplexity_is_exponential(m, ws, n_samples);
}

} // verus!
