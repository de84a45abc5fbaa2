//! The pass with cached keys and values against the pass over the whole window, and that
//! no row of the whole pass looks ahead.
//!
//! The cached and the whole pass apply the same operations up to how they divide, where
//! they start their sums and what they do with masked scores. [`drift_free`] names the
//! identities of arithmetic that make up the difference: under them the two passes are
//! proved equal. Floats do not have the first of them, since rounding tells a division
//! from the product with a reciprocal. Nothing is stated here of how far two passes on
//! floats can lie apart.
//!
//! That no row looks ahead needs less: [`masks`], and windows over which the heads are
//! [`calm`].
use crate::attention::{attend_of, attention_of, head_of, heads_of, linear_of, score_scale};
use crate::bitlinear::{
    absmax, int8_row, restored_acts, restored_row, restored_rows, ternary_weights,
};
use crate::block::{attended_of, block_of};
use crate::data::unit_of;
use crate::ffn::{ffn_of, gated_of};
use crate::float::{
    fadd, fbits, fdiv, fdot, feq, fexp, flt, fmul, fone, fsub, fsum, fzero, Float, NEG_INFINITY,
};
use crate::inference::{
    can_generate, context_of, generated, lemma_choice_place, next_logits, state_after, SamplingMode,
};
use crate::inference_kv::{
    acts_row, block_row, block_seen, cached_generated, cached_mix, cached_weights, empty_rows, fed,
    fed_logits, ffn_row, grown, head_row, heads_row, lemma_fed_same, logits_after, row_after,
    row_plus, row_times, soft_row, HeadRows,
};
use crate::layout::{BlockOf, HeadOf, ModelOf};
use crate::model::{block_shaped, blocks_of, head_shaped, logits_of, Model, ModelConfig};
use crate::ops::{
    causal_mask_of, embed_of, ids_below, masked_row, masked_rows, picked_rows, rmsnorm_of,
    rmsnorm_row, rmsnorm_rows, rope_of, rope_row, rope_rows, row_max, shifted_exps, sigmoid,
    silu_of, softmax_row, softmax_rows,
};
use crate::tensor::{
    add_of, columns, each, lemma_flat_row, lemma_row_end, lemma_volume2, matmul_of, matrix,
    product_rows, scale_of, transpose_of, Array,
};
use vstd::prelude::*;

verus! {

/// Arithmetic in which the two passes differ in nothing: to divide is to multiply
/// by the reciprocal, zero is neutral in sums and absorbing in products, nothing is
/// below negative infinity, and the exponential of negative infinity less anything
/// is zero.
pub open spec fn drift_free<T: Float>() -> bool {
    &&& forall|a: T, b: T| #[trigger] fmul(a, fdiv(fone::<T>(), b)) == fdiv(a, b)
    &&& forall|a: T| #[trigger] fmul(fzero::<T>(), a) == fzero::<T>()
    &&& forall|a: T| #[trigger] fadd(a, fzero::<T>()) == a
    &&& forall|a: T| #[trigger] fadd(fzero::<T>(), a) == a
    &&& forall|a: T| !#[trigger] flt(a, fbits::<T>(NEG_INFINITY))
    &&& forall|a: T| #[trigger] fexp(fsub(fbits::<T>(NEG_INFINITY), a)) == fzero::<T>()
}

/// Nothing is below negative infinity, and zero is neutral in a sum that started at zero.
/// Floats that keep a single NaN are so.
pub open spec fn masks<T: Float>() -> bool {
    &&& forall|a: T| !#[trigger] flt(a, fbits::<T>(NEG_INFINITY))
    &&& forall|s: Seq<T>| fadd(#[trigger] fsum(s), fzero::<T>()) == fsum(s)
}

/// A row of scores gives its masked places no weight. A row of floats does that has a
/// finite score and no NaN.
pub open spec fn calm_row<T: Float>(s: Seq<T>) -> bool {
    &&& fexp(fsub(fbits::<T>(NEG_INFINITY), row_max(s))) == fzero::<T>()
    &&& fmul(fzero::<T>(), fdiv(fone::<T>(), fsum(shifted_exps(s)))) == fzero::<T>()
}

/// With no weight the value adds nothing to an inner product. Finite floats do not.
pub open spec fn inert<T: Float>(v: T) -> bool {
    forall|a: Seq<T>, b: Seq<T>, n: nat|
        fadd(#[trigger] fdot(a, b, n), fmul(fzero::<T>(), v)) == fdot(a, b, n)
}

/// The masked and scaled scores of queries and keys.
pub open spec fn scores_of<T: Float>(q: Array<T>, k: Array<T>, scale: T) -> Array<T> {
    causal_mask_of(scale_of(matmul_of(q, transpose_of(k)), scale))
}

/// The scores of a head over quantised activations give masked places no weight, and
/// its values are inert.
pub open spec fn calm_head<T: Float>(x: Array<T>, h: HeadOf<Array<T>>, scale: T) -> bool {
    let scores = scores_of(rope_of(linear_of(x, h.w_q)), rope_of(linear_of(x, h.w_k)), scale);
    let values = linear_of(x, h.w_v);
    &&& forall|i: nat| i < x.dims[0] ==> calm_row(#[trigger] scores.row(i))
    &&& forall|k: int| 0 <= k < values.data.len() ==> inert(#[trigger] values.data[k])
}

/// Every head of a block is calm over activations `x`.
pub open spec fn calm_block<T: Float>(x: Array<T>, b: BlockOf<Array<T>>, head_dim: usize) -> bool {
    forall|p: int|
        0 <= p < b.heads.len() ==> calm_head(
            restored_acts(rmsnorm_of(x)),
            #[trigger] b.heads[p],
            score_scale(head_dim),
        )
}

/// Every head of a model is calm over a window. A run on floats is in which no score is a
/// NaN, every row has a finite score and every value is finite.
pub open spec fn calm<T: Float>(m: ModelOf<Array<T>>, ids: Seq<usize>, head_dim: usize) -> bool {
    forall|j: nat|
        j < m.blocks.len() ==> calm_block(
            #[trigger] blocks_of(embed_of(m.embed, ids), m.blocks, head_dim, j),
            m.blocks[j as int],
            head_dim,
        )
}

/// A sound matrix of `m` rows and `n` columns.
pub open spec fn grid<T>(a: Array<T>, m: usize, n: usize) -> bool {
    a.dims == seq![m, n] && a.data.len() == m * n
}

/// A row of a matrix has as many items as the matrix has columns.
pub proof fn lemma_row<T>(a: Array<T>, m: usize, n: usize, i: nat)
    requires
        grid(a, m, n),
        i < m,
    ensures
        a.row(i).len() == n,
        i * n + n <= a.data.len(),
        forall|j: int| 0 <= j < n ==> #[trigger] a.row(i)[j] == a.data[i * n + j],
{
    lemma_row_end(i as int, m as int, n as int);
}

/// Where a row and a column of a matrix cross.
pub proof fn lemma_cross<T>(a: Array<T>, m: usize, n: usize, i: nat, j: nat)
    requires
        grid(a, m, n),
        i < m,
        j < n,
    ensures
        a.col(j).len() == m,
        a.col(j)[i as int] == a.row(i)[j as int],
{
    lemma_row(a, m, n, i);
}

/// The rows of a matrix that is given by its rows.
pub proof fn lemma_matrix_row<T>(m: usize, n: usize, g: spec_fn(nat) -> Seq<T>, i: nat)
    requires
        i < m,
        forall|k: nat| k < m ==> (#[trigger] g(k)).len() == n,
    ensures
        grid(matrix(m, n, g), m, n),
        matrix(m, n, g).row(i) == g(i),
{
    lemma_flat_row(m as nat, n as nat, g, i);
}

/// A row of a matrix whose items were changed one by one.
pub proof fn lemma_each_row<T>(a: Array<T>, f: spec_fn(T) -> T, m: usize, n: usize, i: nat)
    requires
        grid(a, m, n),
        i < m,
    ensures
        grid(each(a, f), m, n),
        each(a, f).row(i) == Seq::new(n as nat, |j: int| f(a.row(i)[j])),
{
    lemma_row(a, m, n, i);
    lemma_row(each(a, f), m, n, i);
    assert(each(a, f).row(i) =~= Seq::new(n as nat, |j: int| f(a.row(i)[j])));
}

/// A row of the sum of two matrices.
pub proof fn lemma_add_row<T: Float>(a: Array<T>, b: Array<T>, m: usize, n: usize, i: nat)
    requires
        grid(a, m, n),
        grid(b, m, n),
        i < m,
    ensures
        grid(add_of(a, b), m, n),
        add_of(a, b).row(i) == row_plus(a.row(i), b.row(i)),
{
    lemma_row(a, m, n, i);
    lemma_row(b, m, n, i);
    lemma_row(add_of(a, b), m, n, i);
    assert(add_of(a, b).row(i) =~= row_plus(a.row(i), b.row(i)));
}

/// A row of a matrix product is the row times the other matrix.
pub proof fn lemma_product_row<T: Float>(
    a: Array<T>,
    b: Array<T>,
    m: usize,
    k: usize,
    n: usize,
    i: nat,
)
    requires
        grid(a, m, k),
        grid(b, k, n),
        i < m,
    ensures
        grid(matmul_of(a, b), m, n),
        matmul_of(a, b).row(i) == row_times(a.row(i), b),
{
    lemma_row(a, m, k, i);
    lemma_matrix_row(m, n, product_rows(a, b), i);
    assert(product_rows(a, b)(i) =~= row_times(a.row(i), b));
}

/// A row of a projection on ternary weights.
pub proof fn lemma_linear_row<T: Float>(
    x: Array<T>,
    w: Array<T>,
    m: usize,
    k: usize,
    n: usize,
    i: nat,
)
    requires
        grid(x, m, k),
        grid(w, k, n),
        i < m,
    ensures
        grid(linear_of(x, w), m, n),
        linear_of(x, w).row(i) == row_times(x.row(i), ternary_weights(w)),
{
    lemma_product_row(x, ternary_weights(w), m, k, n, i);
}

/// A row of normalised activations.
pub proof fn lemma_rmsnorm_row<T: Float>(x: Array<T>, m: usize, n: usize, i: nat)
    requires
        grid(x, m, n),
        i < m,
    ensures
        grid(rmsnorm_of(x), m, n),
        rmsnorm_of(x).row(i) == rmsnorm_row(x.row(i)),
{
    assert forall|k: nat| k < m implies (#[trigger] rmsnorm_rows(x)(k)).len() == n by {
        lemma_row(x, m, n, k);
    }
    lemma_matrix_row(m, n, rmsnorm_rows(x), i);
}

/// A row of rotated activations.
pub proof fn lemma_rope_row<T: Float>(x: Array<T>, m: usize, n: usize, i: nat)
    requires
        grid(x, m, n),
        i < m,
    ensures
        grid(rope_of(x), m, n),
        rope_of(x).row(i) == rope_row(x.row(i), i as usize),
{
    assert forall|k: nat| k < m implies (#[trigger] rope_rows(x)(k)).len() == n by {
        lemma_row(x, m, n, k);
    }
    lemma_matrix_row(m, n, rope_rows(x), i);
}

/// A row of quantised activations.
pub proof fn lemma_restored_row<T: Float>(x: Array<T>, m: usize, n: usize, i: nat)
    requires
        grid(x, m, n),
        i < m,
    ensures
        grid(restored_acts(x), m, n),
        restored_acts(x).row(i) == restored_row(x.row(i)),
{
    assert forall|k: nat| k < m implies (#[trigger] restored_rows(x)(k)).len() == n by {
        lemma_row(x, m, n, k);
    }
    lemma_matrix_row(m, n, restored_rows(x), i);
}

/// The same where dividing is multiplying by the reciprocal.
proof fn lemma_acts_row<T: Float>(x: Array<T>, m: usize, n: usize, i: nat)
    requires
        drift_free::<T>(),
        grid(x, m, n),
        i < m,
    ensures
        grid(restored_acts(x), m, n),
        restored_acts(x).row(i) == acts_row(x.row(i)),
{
    lemma_restored_row(x, m, n, i);
    let s = x.row(i);
    assert forall|k: int| 0 <= k < s.len() implies #[trigger] restored_row(s)[k] == acts_row(
        s,
    )[k] by {
        if feq(absmax(s), fzero::<T>()) {
            assert(int8_row(s)[k] == fzero::<T>());
        }
    }
    assert(restored_row(s) =~= acts_row(s));
}

/// A column of a transpose is a row.
pub proof fn lemma_transpose_col<T>(a: Array<T>, m: usize, n: usize, i: nat)
    requires
        grid(a, m, n),
        i < m,
    ensures
        grid(transpose_of(a), n, m),
        transpose_of(a).col(i) == a.row(i),
{
    let t = transpose_of(a);
    lemma_row(a, m, n, i);
    if n > 0 {
        lemma_matrix_row(n, m, columns(a), 0);
    }
    assert(grid(t, n, m)) by {
        if n == 0 {
            assert(t.data.len() == 0);
            assert(n * m == 0) by (nonlinear_arith)
                requires
                    n == 0,
            ;
        }
    }
    assert forall|p: int| 0 <= p < n implies #[trigger] t.col(i)[p] == a.row(i)[p] by {
        lemma_matrix_row(n, m, columns(a), p as nat);
        lemma_cross(t, n, m, p as nat, i);
        lemma_cross(a, m, n, i, p as nat);
    }
    assert(t.col(i) =~= a.row(i));
}

/// Trailing negative infinities leave the largest item of a row as it is.
proof fn lemma_max_tail<T: Float>(s: Seq<T>, n: nat)
    requires
        masks::<T>(),
        n <= s.len(),
        forall|k: int| n <= k < s.len() ==> #[trigger] s[k] == fbits::<T>(NEG_INFINITY),
    ensures
        row_max(s) == row_max(s.take(n as int)),
    decreases s.len(),
{
    if n < s.len() {
        let p = s.drop_last();
        lemma_max_tail(p, n);
        assert(p.take(n as int) =~= s.take(n as int));
        assert(s.last() == fbits::<T>(NEG_INFINITY));
    } else {
        assert(s.take(n as int) =~= s);
    }
}

/// Trailing zeros leave a sum as it is.
proof fn lemma_sum_tail<T: Float>(s: Seq<T>, n: nat)
    requires
        masks::<T>(),
        n <= s.len(),
        forall|k: int| n <= k < s.len() ==> #[trigger] s[k] == fzero::<T>(),
    ensures
        fsum(s) == fsum(s.take(n as int)),
    decreases s.len(),
{
    if n < s.len() {
        let p = s.drop_last();
        lemma_sum_tail(p, n);
        assert(p.take(n as int) =~= s.take(n as int));
        assert(s.last() == fzero::<T>());
        assert(fadd(fsum(p), fzero::<T>()) == fsum(p));
    } else {
        assert(s.take(n as int) =~= s);
    }
}

/// The softmax of a row with a masked tail is that of the rest, and zero on the tail.
proof fn lemma_soft_tail<T: Float>(s: Seq<T>, n: nat)
    requires
        masks::<T>(),
        calm_row(s),
        n <= s.len(),
        forall|k: int| n <= k < s.len() ==> #[trigger] s[k] == fbits::<T>(NEG_INFINITY),
    ensures
        softmax_row(s).len() == s.len(),
        softmax_row(s).take(n as int) == softmax_row(s.take(n as int)),
        forall|k: int| n <= k < s.len() ==> #[trigger] softmax_row(s)[k] == fzero::<T>(),
{
    let p = s.take(n as int);
    let (es, ep) = (shifted_exps(s), shifted_exps(p));
    lemma_max_tail(s, n);
    assert forall|k: int| n <= k < s.len() implies #[trigger] es[k] == fzero::<T>() by {
        assert(s[k] == fbits::<T>(NEG_INFINITY));
    }
    lemma_sum_tail(es, n);
    assert(es.take(n as int) =~= ep);
    assert(softmax_row(s).take(n as int) =~= softmax_row(p));
    assert forall|k: int| n <= k < s.len() implies #[trigger] softmax_row(s)[k] == fzero::<T>() by {
        assert(es[k] == fzero::<T>());
    }
}

/// An inner product depends on the leading items alone where the others are zero.
proof fn lemma_dot_tail<T: Float>(a: Seq<T>, b: Seq<T>, c: Seq<T>, d: Seq<T>, k: nat, n: nat)
    requires
        k <= n,
        n <= a.len(),
        forall|t: int| k <= t < n ==> #[trigger] a[t] == fzero::<T>(),
        forall|t: int| k <= t < n ==> inert(#[trigger] b[t]),
        forall|t: int| 0 <= t < k ==> #[trigger] a[t] == c[t],
        forall|t: int| 0 <= t < k ==> #[trigger] b[t] == d[t],
    ensures
        fdot(a, b, n) == fdot(c, d, k),
    decreases n,
{
    if n > 0 {
        if k < n {
            lemma_dot_tail(a, b, c, d, k, (n - 1) as nat);
            assert(a[n - 1] == fzero::<T>());
            assert(inert(b[n - 1]));
        } else {
            lemma_dot_tail(a, b, c, d, (k - 1) as nat, (n - 1) as nat);
            assert(a[n - 1] == c[n - 1]);
            assert(b[n - 1] == d[n - 1]);
        }
    }
}

/// Arithmetic without drift masks, and everything is calm in it.
proof fn lemma_drift_free_calm<T: Float>()
    requires
        drift_free::<T>(),
    ensures
        masks::<T>(),
        forall|s: Seq<T>| #[trigger] calm_row(s),
        forall|v: T| #[trigger] inert(v),
{
}

/// The cached rows are the first rows of a matrix.
spec fn leading<T>(c: Array<T>, a: Array<T>, n: usize, d: usize) -> bool {
    &&& grid(c, n, d)
    &&& forall|t: nat| t < n ==> #[trigger] c.row(t) == a.row(t)
}

/// The scores of row `i`: the scaled inner products up to it, negative infinity after it.
/// The attention weights are their softmax.
pub proof fn lemma_score_row<T: Float>(
    q: Array<T>,
    k: Array<T>,
    scale: T,
    s: usize,
    d: usize,
    i: nat,
)
    requires
        grid(q, s, d),
        grid(k, s, d),
        i < s,
    ensures
        grid(attend_of(q, k, scale), s, s),
        attend_of(q, k, scale).row(i) == softmax_row(scores_of(q, k, scale).row(i)),
        scores_of(q, k, scale).row(i).len() == s,
        forall|t: int|
            0 <= t <= i ==> #[trigger] scores_of(q, k, scale).row(i)[t] == fmul(
                fdot(q.row(i), k.row(t as nat), d as nat),
                scale,
            ),
        forall|t: int|
            i < t < s ==> #[trigger] scores_of(q, k, scale).row(i)[t] == fbits::<T>(NEG_INFINITY),
{
    let scores = matmul_of(q, transpose_of(k));
    let scaled = scale_of(scores, scale);
    let masked = causal_mask_of(scaled);
    let neg = fbits::<T>(NEG_INFINITY);
    lemma_transpose_col(k, s, d, i);
    lemma_product_row(q, transpose_of(k), s, d, s, i);
    lemma_each_row(scores, |x: T| fmul(x, scale), s, s, i);
    lemma_row(scaled, s, s, i);
    assert forall|r: nat| r < s implies (#[trigger] masked_rows(scaled, neg)(r)).len() == s by {
        lemma_row(scaled, s, s, r);
    }
    lemma_matrix_row(s, s, masked_rows(scaled, neg), i);
    assert forall|r: nat| r < s implies (#[trigger] softmax_rows(masked)(r)).len() == s by {
        lemma_row(masked, s, s, r);
    }
    lemma_matrix_row(s, s, softmax_rows(masked), i);
    assert(masked.row(i) == masked_row(scaled.row(i), i, neg));
    lemma_row(q, s, d, i);
    let qr = q.row(i);
    assert forall|t: int| 0 <= t <= i implies #[trigger] masked.row(i)[t] == fmul(
        fdot(qr, k.row(t as nat), d as nat),
        scale,
    ) by {
        lemma_transpose_col(k, s, d, t as nat);
        assert(scores.row(i)[t] == fdot(qr, transpose_of(k).col(t as nat), qr.len()));
    }
}

/// The attention weights of row `i`: those of the cached keys, and zero for later rows.
proof fn lemma_attend_row<T: Float>(
    q: Array<T>,
    k: Array<T>,
    kc: Array<T>,
    scale: T,
    s: usize,
    d: usize,
    i: nat,
)
    requires
        drift_free::<T>(),
        grid(q, s, d),
        grid(k, s, d),
        i < s,
        leading(kc, k, (i + 1) as usize, d),
    ensures
        grid(attend_of(q, k, scale), s, s),
        attend_of(q, k, scale).row(i).take((i + 1) as int) == cached_weights(q.row(i), kc, scale),
        forall|t: int|
            i < t < s ==> #[trigger] attend_of(q, k, scale).row(i)[t] == fzero::<T>(),
{
    lemma_drift_free_calm::<T>();
    lemma_score_row(q, k, scale, s, d, i);
    let full = scores_of(q, k, scale).row(i);
    lemma_row(q, s, d, i);
    let qr = q.row(i);
    let pre = Seq::new(
        kc.dims[0] as nat,
        |t: int| fmul(fdot(qr, kc.row(t as nat), qr.len()), scale),
    );
    assert forall|t: int| 0 <= t <= i implies full[t] == #[trigger] pre[t] by {
        assert(kc.row(t as nat) == k.row(t as nat));
    }
    assert(full.take((i + 1) as int) =~= pre);
    assert(calm_row(full));
    lemma_soft_tail(full, i + 1);
    assert(softmax_row(pre) =~= soft_row(pre));
}

/// A row of mixed values: the cached values mixed by the cached weights.
proof fn lemma_mix_row<T: Float>(
    w: Array<T>,
    v: Array<T>,
    wc: Seq<T>,
    vc: Array<T>,
    s: usize,
    d: usize,
    i: nat,
)
    requires
        drift_free::<T>(),
        grid(w, s, s),
        grid(v, s, d),
        i < s,
        leading(vc, v, (i + 1) as usize, d),
        w.row(i).take((i + 1) as int) == wc,
        forall|t: int| i < t < s ==> #[trigger] w.row(i)[t] == fzero::<T>(),
    ensures
        grid(matmul_of(w, v), s, d),
        matmul_of(w, v).row(i) == cached_mix(wc, vc),
{
    lemma_product_row(w, v, s, s, d, i);
    lemma_row(w, s, s, i);
    let a = w.row(i);
    assert forall|x: int| 0 <= x < d implies #[trigger] row_times(a, v)[x] == cached_mix(
        wc,
        vc,
    )[x] by {
        let (b, e) = (v.col(x as nat), vc.col(x as nat));
        assert forall|t: int| 0 <= t < i + 1 implies #[trigger] b[t] == e[t] by {
            lemma_cross(v, s, d, t as nat, x as nat);
            lemma_cross(vc, (i + 1) as usize, d, t as nat, x as nat);
            assert(vc.row(t as nat) == v.row(t as nat));
        }
        assert forall|t: int| 0 <= t < i + 1 implies #[trigger] a[t] == wc[t] by {
            assert(a.take((i + 1) as int)[t] == a[t]);
        }
        lemma_drift_free_calm::<T>();
        assert(forall|t: int| i < t < s ==> inert(#[trigger] b[t]));
        lemma_dot_tail(a, b, wc, e, (i + 1) as nat, s as nat);
    }
    assert(row_times(a, v) =~= cached_mix(wc, vc));
}

/// The weights of a head have the shapes of the configuration.
pub open spec fn head_grid<T>(h: HeadOf<Array<T>>, c: ModelConfig) -> bool {
    &&& grid(h.w_q, c.hidden_dim, c.head_dim)
    &&& grid(h.w_k, c.hidden_dim, c.head_dim)
    &&& grid(h.w_v, c.hidden_dim, c.head_dim)
    &&& grid(h.w_o, c.head_dim, c.hidden_dim)
}

/// The weights of a block have the number and the shapes of the configuration.
spec fn block_grid<T>(b: BlockOf<Array<T>>, c: ModelConfig) -> bool {
    &&& b.heads.len() == c.n_heads
    &&& forall|i: int| 0 <= i < b.heads.len() ==> head_grid(#[trigger] b.heads[i], c)
    &&& grid(b.gate, c.hidden_dim, c.ffn_dim)
    &&& grid(b.up, c.hidden_dim, c.ffn_dim)
    &&& grid(b.down, c.ffn_dim, c.hidden_dim)
}

/// The weights of a model have the number and the shapes of the configuration.
spec fn model_grid<T>(m: ModelOf<Array<T>>, c: ModelConfig) -> bool {
    &&& grid(m.embed, c.vocab_size, c.hidden_dim)
    &&& m.blocks.len() == c.n_blocks
    &&& forall|j: int| 0 <= j < m.blocks.len() ==> block_grid(#[trigger] m.blocks[j], c)
}

/// The caches hold the keys and values of the first rows of activations `x`.
spec fn caught<T: Float>(
    kv: HeadRows<T>,
    x: Array<T>,
    h: HeadOf<Array<T>>,
    n: usize,
    d: usize,
) -> bool {
    &&& leading(kv.k, rope_of(linear_of(x, h.w_k)), n, d)
    &&& leading(kv.v, linear_of(x, h.w_v), n, d)
}

/// What a head gives for row `i` of quantised activations.
proof fn lemma_head_row<T: Float>(
    x: Array<T>,
    h: HeadOf<Array<T>>,
    kv: HeadRows<T>,
    scale: T,
    c: ModelConfig,
    s: usize,
    i: nat,
)
    requires
        drift_free::<T>(),
        grid(x, s, c.hidden_dim),
        head_grid(h, c),
        i < s,
        caught(kv, x, h, (i + 1) as usize, c.head_dim),
    ensures
        grid(head_of(x, h, scale), s, c.hidden_dim),
        head_of(x, h, scale).row(i) == head_row(x.row(i), h, kv, i as usize, scale),
{
    let (n, d) = (c.hidden_dim, c.head_dim);
    let q = rope_of(linear_of(x, h.w_q));
    let k = rope_of(linear_of(x, h.w_k));
    let v = linear_of(x, h.w_v);
    lemma_linear_row(x, h.w_q, s, n, d, i);
    lemma_rope_row(linear_of(x, h.w_q), s, d, i);
    lemma_linear_row(x, h.w_k, s, n, d, i);
    lemma_rope_row(linear_of(x, h.w_k), s, d, i);
    lemma_linear_row(x, h.w_v, s, n, d, i);
    let w = attend_of(q, k, scale);
    lemma_attend_row(q, k, kv.k, scale, s, d, i);
    let wc = cached_weights(q.row(i), kv.k, scale);
    lemma_mix_row(w, v, wc, kv.v, s, d, i);
    let mixed = matmul_of(w, v);
    lemma_acts_row(mixed, s, d, i);
    lemma_linear_row(restored_acts(mixed), h.w_o, s, d, n, i);
}

/// What the first `n` heads give for row `i` of quantised activations.
proof fn lemma_heads_row<T: Float>(
    x: Array<T>,
    hs: Seq<HeadOf<Array<T>>>,
    kvs: Seq<HeadRows<T>>,
    scale: T,
    c: ModelConfig,
    s: usize,
    i: nat,
    n: nat,
)
    requires
        drift_free::<T>(),
        grid(x, s, c.hidden_dim),
        i < s,
        1 <= n <= hs.len(),
        forall|p: int| 0 <= p < hs.len() ==> head_grid(#[trigger] hs[p], c),
        forall|p: int|
            0 <= p < hs.len() ==> caught(
                kvs[p],
                x,
                #[trigger] hs[p],
                (i + 1) as usize,
                c.head_dim,
            ),
    ensures
        grid(heads_of(x, hs, scale, n), s, c.hidden_dim),
        heads_of(x, hs, scale, n).row(i) == heads_row(
            x.row(i),
            hs,
            kvs,
            i as usize,
            scale,
            c.hidden_dim,
            n,
        ),
    decreases n,
{
    let h = hs[n - 1];
    assert(head_grid(h, c));
    lemma_head_row(x, h, kvs[n - 1], scale, c, s, i);
    let out = head_row(x.row(i), h, kvs[n - 1], i as usize, scale);
    lemma_row(head_of(x, h, scale), s, c.hidden_dim, i);
    if n == 1 {
        reveal_with_fuel(heads_row, 2);
        let zeros = heads_row(x.row(i), hs, kvs, i as usize, scale, c.hidden_dim, 0);
        assert(row_plus(zeros, out) =~= out);
    } else {
        lemma_heads_row(x, hs, kvs, scale, c, s, i, (n - 1) as nat);
        lemma_add_row(
            heads_of(x, hs, scale, (n - 1) as nat),
            head_of(x, h, scale),
            s,
            c.hidden_dim,
            i,
        );
    }
}

/// What a feed-forward layer gives for row `i`.
proof fn lemma_ffn_row<T: Float>(
    x: Array<T>,
    b: BlockOf<Array<T>>,
    c: ModelConfig,
    s: usize,
    i: nat,
)
    requires
        drift_free::<T>(),
        grid(x, s, c.hidden_dim),
        block_grid(b, c),
        i < s,
    ensures
        grid(ffn_of(rmsnorm_of(x), b.gate, b.up, b.down), s, c.hidden_dim),
        ffn_of(rmsnorm_of(x), b.gate, b.up, b.down).row(i) == ffn_row(x.row(i), b),
{
    let (n, f) = (c.hidden_dim, c.ffn_dim);
    lemma_rmsnorm_row(x, s, n, i);
    lemma_acts_row(rmsnorm_of(x), s, n, i);
    let xe = restored_acts(rmsnorm_of(x));
    lemma_linear_row(xe, b.gate, s, n, f, i);
    lemma_linear_row(xe, b.up, s, n, f, i);
    let (g, u) = (linear_of(xe, b.gate), linear_of(xe, b.up));
    lemma_each_row(g, |v: T| fmul(v, sigmoid(v)), s, f, i);
    let sg = silu_of(g);
    let h = gated_of(xe, b.gate, b.up);
    lemma_row(g, s, f, i);
    lemma_row(u, s, f, i);
    lemma_row(sg, s, f, i);
    lemma_row(h, s, f, i);
    let (gr, ur) = (g.row(i), u.row(i));
    assert(h.row(i) =~= Seq::new(gr.len(), |k: int| fmul(fmul(gr[k], sigmoid(gr[k])), ur[k])));
    lemma_acts_row(h, s, f, i);
    lemma_linear_row(restored_acts(h), b.down, s, f, n, i);
}

/// What a block gives for row `i`.
proof fn lemma_block_row<T: Float>(
    x: Array<T>,
    b: BlockOf<Array<T>>,
    kvs: Seq<HeadRows<T>>,
    c: ModelConfig,
    s: usize,
    i: nat,
)
    requires
        drift_free::<T>(),
        grid(x, s, c.hidden_dim),
        block_grid(b, c),
        c.n_heads > 0,
        i < s,
        forall|p: int|
            0 <= p < b.heads.len() ==> caught(
                kvs[p],
                restored_acts(rmsnorm_of(x)),
                #[trigger] b.heads[p],
                (i + 1) as usize,
                c.head_dim,
            ),
    ensures
        grid(block_of(x, b, c.head_dim), s, c.hidden_dim),
        block_of(x, b, c.head_dim).row(i) == block_row(
            x.row(i),
            b,
            kvs,
            i as usize,
            score_scale(c.head_dim),
            c.hidden_dim,
        ),
{
    let n = c.hidden_dim;
    let scale = score_scale::<T>(c.head_dim);
    lemma_rmsnorm_row(x, s, n, i);
    lemma_acts_row(rmsnorm_of(x), s, n, i);
    let xe = restored_acts(rmsnorm_of(x));
    lemma_heads_row(xe, b.heads, kvs, scale, c, s, i, b.heads.len());
    let att = attention_of(rmsnorm_of(x), b.heads, c.head_dim);
    lemma_add_row(x, att, s, n, i);
    let x1 = attended_of(x, b, c.head_dim);
    lemma_ffn_row(x1, b, c, s, i);
    lemma_add_row(x1, ffn_of(rmsnorm_of(x1), b.gate, b.up, b.down), s, n, i);
}

/// A matrix with one more row.
proof fn lemma_grown<T>(a: Array<T>, row: Seq<T>, n: usize, d: usize)
    requires
        grid(a, n, d),
        row.len() == d,
        n < usize::MAX,
    ensures
        grid(grown(a, row), (n + 1) as usize, d),
        forall|t: nat| t < n ==> #[trigger] grown(a, row).row(t) == a.row(t),
        grown(a, row).row(n as nat) == row,
{
    let g = grown(a, row);
    lemma_row_end(n as int, n + 1, d as int);
    assert(g.dims =~= seq![(n + 1) as usize, d]);
    assert forall|t: nat| t < n implies #[trigger] g.row(t) == a.row(t) by {
        lemma_row(a, n, d, t);
        lemma_row(g, (n + 1) as usize, d, t);
        assert(g.row(t) =~= a.row(t));
    }
    lemma_row(g, (n + 1) as usize, d, n as nat);
    assert(g.row(n as nat) =~= row);
}

/// The row of the id at place `t` after `j` blocks of the cached pass.
#[verifier::opaque]
spec fn row_at<T: Float>(
    m: ModelOf<Array<T>>,
    c: ModelConfig,
    ids: Seq<usize>,
    t: nat,
    j: nat,
) -> Seq<T> {
    row_after(m, c, fed(m, c, ids, t), ids[t as int], t as usize, j)
}

/// The key that a head makes of a row at place `t`.
spec fn key_of<T: Float>(x: Seq<T>, h: HeadOf<Array<T>>, t: nat) -> Seq<T> {
    rope_row(row_times(acts_row(rmsnorm_row(x)), ternary_weights(h.w_k)), t as usize)
}

/// The value that a head makes of a row.
spec fn value_of<T: Float>(x: Seq<T>, h: HeadOf<Array<T>>) -> Seq<T> {
    row_times(acts_row(rmsnorm_row(x)), ternary_weights(h.w_v))
}

/// What the cached pass holds for a head of block `j` after `n` ids.
spec fn kept<T: Float>(
    kv: HeadRows<T>,
    h: HeadOf<Array<T>>,
    m: ModelOf<Array<T>>,
    c: ModelConfig,
    ids: Seq<usize>,
    j: nat,
    n: nat,
) -> bool {
    &&& grid(kv.k, n as usize, c.head_dim)
    &&& grid(kv.v, n as usize, c.head_dim)
    &&& forall|t: nat|
        t < n ==> #[trigger] kv.k.row(t) == key_of(row_at(m, c, ids, t, j), h, t)
    &&& forall|t: nat| t < n ==> #[trigger] kv.v.row(t) == value_of(row_at(m, c, ids, t, j), h)
}

/// What an id adds to the cache of a head.
proof fn lemma_fed_step<T: Float>(
    m: ModelOf<Array<T>>,
    c: ModelConfig,
    ids: Seq<usize>,
    j: nat,
    p: nat,
    n: nat,
)
    requires
        j < m.blocks.len(),
        p < m.blocks[j as int].heads.len(),
        n < ids.len(),
    ensures
        fed(m, c, ids, n + 1)[j as int] == block_seen(
            row_at(m, c, ids, n, j),
            m.blocks[j as int],
            fed(m, c, ids, n)[j as int],
            n as usize,
        ),
        fed(m, c, ids, n + 1)[j as int][p as int] == (HeadRows {
            k: grown(
                fed(m, c, ids, n)[j as int][p as int].k,
                key_of(row_at(m, c, ids, n, j), m.blocks[j as int].heads[p as int], n),
            ),
            v: grown(
                fed(m, c, ids, n)[j as int][p as int].v,
                value_of(row_at(m, c, ids, n, j), m.blocks[j as int].heads[p as int]),
            ),
        }),
{
    reveal(row_at);
}

/// The caches after `n` ids hold the keys and values of those ids.
proof fn lemma_kept<T: Float>(
    m: ModelOf<Array<T>>,
    c: ModelConfig,
    ids: Seq<usize>,
    j: nat,
    p: nat,
    n: nat,
)
    requires
        j < m.blocks.len(),
        p < m.blocks[j as int].heads.len(),
        head_grid(m.blocks[j as int].heads[p as int], c),
        n <= ids.len() <= usize::MAX,
    ensures
        kept(
            fed(m, c, ids, n)[j as int][p as int],
            m.blocks[j as int].heads[p as int],
            m,
            c,
            ids,
            j,
            n,
        ),
    decreases n,
{
    let h = m.blocks[j as int].heads[p as int];
    let kv = fed(m, c, ids, n)[j as int][p as int];
    if n == 0 {
        assert(empty_rows(m, c.head_dim)[j as int][p as int] == kv);
        assert(kv.k.dims =~= seq![0usize, c.head_dim]);
        assert(0 * c.head_dim == 0) by (nonlinear_arith);
    } else {
        let t = (n - 1) as nat;
        lemma_kept(m, c, ids, j, p, t);
        lemma_fed_step(m, c, ids, j, p, t);
        let before = fed(m, c, ids, t)[j as int][p as int];
        let x = row_at(m, c, ids, t, j);
        lemma_grown(before.k, key_of(x, h, t), t as usize, c.head_dim);
        lemma_grown(before.v, value_of(x, h), t as usize, c.head_dim);
        assert forall|u: nat| u < n implies #[trigger] kv.k.row(u) == key_of(
            row_at(m, c, ids, u, j),
            h,
            u,
        ) by {
            if u < t {
                assert(kv.k.row(u) == before.k.row(u));
            }
        }
        assert forall|u: nat| u < n implies #[trigger] kv.v.row(u) == value_of(
            row_at(m, c, ids, u, j),
            h,
        ) by {
            if u < t {
                assert(kv.v.row(u) == before.v.row(u));
            }
        }
    }
}

/// A row of the embedded ids is the first row of the cached pass.
proof fn lemma_embed_row<T: Float>(m: ModelOf<Array<T>>, c: ModelConfig, ids: Seq<usize>, i: nat)
    requires
        model_grid(m, c),
        ids.len() <= usize::MAX,
        ids_below(ids, c.vocab_size),
        i < ids.len(),
    ensures
        grid(embed_of(m.embed, ids), ids.len() as usize, c.hidden_dim),
        embed_of(m.embed, ids).row(i) == row_at(m, c, ids, i, 0),
{
    let s = ids.len() as usize;
    assert forall|k: nat| k < s implies (#[trigger] picked_rows(m.embed, ids)(k)).len()
        == c.hidden_dim by {
        assert(ids[k as int] < c.vocab_size);
        lemma_row(m.embed, c.vocab_size, c.hidden_dim, ids[k as int] as nat);
    }
    lemma_matrix_row(s, c.hidden_dim, picked_rows(m.embed, ids), i);
    reveal(row_at);
}

/// Where the rows before a block agree, so do those after it.
proof fn lemma_block_agrees<T: Float>(
    m: ModelOf<Array<T>>,
    c: ModelConfig,
    ids: Seq<usize>,
    y: Array<T>,
    j: nat,
    i: nat,
)
    requires
        drift_free::<T>(),
        model_grid(m, c),
        c.n_heads > 0,
        ids.len() <= usize::MAX,
        j < m.blocks.len(),
        i < ids.len(),
        grid(y, ids.len() as usize, c.hidden_dim),
        forall|t: nat| t < ids.len() ==> #[trigger] y.row(t) == row_at(m, c, ids, t, j),
    ensures
        grid(block_of(y, m.blocks[j as int], c.head_dim), ids.len() as usize, c.hidden_dim),
        block_of(y, m.blocks[j as int], c.head_dim).row(i) == row_at(m, c, ids, i, j + 1),
{
    let s = ids.len() as usize;
    let b = m.blocks[j as int];
    assert(block_grid(b, c));
    let xi = row_at(m, c, ids, i, j);
    let kvs = block_seen(xi, b, fed(m, c, ids, i)[j as int], i as usize);
    let xe = restored_acts(rmsnorm_of(y));
    assert forall|p: int| 0 <= p < b.heads.len() implies caught(
        kvs[p],
        xe,
        #[trigger] b.heads[p],
        (i + 1) as usize,
        c.head_dim,
    ) by {
        let h = b.heads[p];
        assert(head_grid(h, c));
        lemma_kept(m, c, ids, j, p as nat, i + 1);
        lemma_fed_step(m, c, ids, j, p as nat, i);
        assert forall|t: nat| t < i + 1 implies #[trigger] kvs[p].k.row(t) == rope_of(
            linear_of(xe, h.w_k),
        ).row(t) by {
            lemma_key_row(y, h, c, s, t);
            assert(y.row(t) == row_at(m, c, ids, t, j));
        }
        assert forall|t: nat| t < i + 1 implies #[trigger] kvs[p].v.row(t) == linear_of(
            xe,
            h.w_v,
        ).row(t) by {
            lemma_value_row(y, h, c, s, t);
            assert(y.row(t) == row_at(m, c, ids, t, j));
        }
    }
    lemma_block_row(y, b, kvs, c, s, i);
    assert(y.row(i) == xi);
    assert(row_at(m, c, ids, i, j + 1) == block_row(
        xi,
        b,
        kvs,
        i as usize,
        score_scale(c.head_dim),
        c.hidden_dim,
    )) by {
        reveal(row_at);
    }
}

/// Every row of the whole pass after `j` blocks is that of the cached pass.
proof fn lemma_rows_agree<T: Float>(
    m: ModelOf<Array<T>>,
    c: ModelConfig,
    ids: Seq<usize>,
    j: nat,
)
    requires
        drift_free::<T>(),
        model_grid(m, c),
        c.n_heads > 0,
        ids.len() <= usize::MAX,
        ids_below(ids, c.vocab_size),
        j <= m.blocks.len(),
    ensures
        ids.len() > 0 ==> grid(
            blocks_of(embed_of(m.embed, ids), m.blocks, c.head_dim, j),
            ids.len() as usize,
            c.hidden_dim,
        ),
        forall|i: nat|
            i < ids.len() ==> #[trigger] blocks_of(
                embed_of(m.embed, ids),
                m.blocks,
                c.head_dim,
                j,
            ).row(i) == row_at(m, c, ids, i, j),
    decreases j,
{
    let x0 = embed_of(m.embed, ids);
    let x = blocks_of(x0, m.blocks, c.head_dim, j);
    if j == 0 {
        assert forall|i: nat| i < ids.len() implies #[trigger] x.row(i) == row_at(
            m,
            c,
            ids,
            i,
            j,
        ) by {
            lemma_embed_row(m, c, ids, i);
        }
        if ids.len() > 0 {
            lemma_embed_row(m, c, ids, 0);
        }
    } else {
        let q = (j - 1) as nat;
        lemma_rows_agree(m, c, ids, q);
        let y = blocks_of(x0, m.blocks, c.head_dim, q);
        assert forall|i: nat| i < ids.len() implies #[trigger] x.row(i) == row_at(
            m,
            c,
            ids,
            i,
            j,
        ) by {
            lemma_block_agrees(m, c, ids, y, q, i);
        }
        if ids.len() > 0 {
            lemma_block_agrees(m, c, ids, y, q, 0);
        }
    }
}

/// The key of row `t`.
proof fn lemma_key_row<T: Float>(
    y: Array<T>,
    h: HeadOf<Array<T>>,
    c: ModelConfig,
    s: usize,
    t: nat,
)
    requires
        drift_free::<T>(),
        grid(y, s, c.hidden_dim),
        head_grid(h, c),
        t < s,
    ensures
        rope_of(linear_of(restored_acts(rmsnorm_of(y)), h.w_k)).row(t) == key_of(y.row(t), h, t),
{
    let (n, d) = (c.hidden_dim, c.head_dim);
    lemma_rmsnorm_row(y, s, n, t);
    lemma_acts_row(rmsnorm_of(y), s, n, t);
    lemma_linear_row(restored_acts(rmsnorm_of(y)), h.w_k, s, n, d, t);
    lemma_rope_row(linear_of(restored_acts(rmsnorm_of(y)), h.w_k), s, d, t);
}

/// The value of row `t`.
proof fn lemma_value_row<T: Float>(
    y: Array<T>,
    h: HeadOf<Array<T>>,
    c: ModelConfig,
    s: usize,
    t: nat,
)
    requires
        drift_free::<T>(),
        grid(y, s, c.hidden_dim),
        head_grid(h, c),
        t < s,
    ensures
        linear_of(restored_acts(rmsnorm_of(y)), h.w_v).row(t) == value_of(y.row(t), h),
{
    let (n, d) = (c.hidden_dim, c.head_dim);
    lemma_rmsnorm_row(y, s, n, t);
    lemma_acts_row(rmsnorm_of(y), s, n, t);
    lemma_linear_row(restored_acts(rmsnorm_of(y)), h.w_v, s, n, d, t);
}

/// The weights of a model of its configured shapes, as matrices.
proof fn lemma_model_grid<T: Float>(model: Model<T>)
    requires
        model.shaped(),
    ensures
        model_grid(model@, model.config),
{
    let (m, c) = (model@, model.config);
    lemma_volume2(m.embed.dims);
    assert forall|j: int| 0 <= j < m.blocks.len() implies block_grid(#[trigger] m.blocks[j], c) by {
        let (b, w) = (m.blocks[j], model.blocks@[j]);
        assert(block_shaped(w, c));
        lemma_volume2(b.gate.dims);
        lemma_volume2(b.up.dims);
        lemma_volume2(b.down.dims);
        assert forall|i: int| 0 <= i < b.heads.len() implies head_grid(#[trigger] b.heads[i], c) by {
            let h = b.heads[i];
            assert(head_shaped(w.heads@[i], c));
            lemma_volume2(h.w_q.dims);
            lemma_volume2(h.w_k.dims);
            lemma_volume2(h.w_v.dims);
            lemma_volume2(h.w_o.dims);
        }
    }
}

/// Feeding ids one by one with cached keys and values gives, for each of them, the
/// row of logits that the pass over all of them at once gives.
pub proof fn law_cached_pass_agrees<T: Float>(model: Model<T>, ids: Seq<usize>, i: int)
    requires
        drift_free::<T>(),
        model.shaped(),
        model.config.n_heads > 0,
        ids.len() <= usize::MAX,
        ids_below(ids, model.config.vocab_size),
        0 <= i < ids.len(),
    ensures
        fed_logits(model@, model.config, ids.take(i + 1)) == logits_of(
            model@,
            ids,
            model.config.head_dim,
        ).row(i as nat),
{
    let (m, c) = (model@, model.config);
    let s = ids.len() as usize;
    let n = c.hidden_dim;
    let k = i as nat;
    lemma_model_grid(model);
    lemma_rows_agree(m, c, ids, m.blocks.len());
    let x = blocks_of(embed_of(m.embed, ids), m.blocks, c.head_dim, m.blocks.len());
    assert(x.row(k) == row_at(m, c, ids, k, m.blocks.len()));
    reveal(row_at);
    lemma_rmsnorm_row(x, s, n, k);
    lemma_acts_row(rmsnorm_of(x), s, n, k);
    let w = transpose_of(m.embed);
    if c.vocab_size > 0 {
        lemma_transpose_col(m.embed, c.vocab_size, n, 0);
    }
    lemma_linear_row(restored_acts(rmsnorm_of(x)), w, s, n, c.vocab_size, k);
    let head = ids.take(i + 1);
    lemma_fed_same(m, c, ids, head, k);
    assert(head[i] == ids[i]);
    assert(fed_logits(m, c, head) == logits_after(m, c, fed(m, c, head, k), head[i], k as usize));
}

/// Two matrices of `n` columns have the same rows up to `i`.
pub open spec fn alike<T>(x: Array<T>, s: usize, y: Array<T>, t: usize, n: usize, i: nat) -> bool {
    &&& grid(x, s, n)
    &&& grid(y, t, n)
    &&& i < s
    &&& i < t
    &&& forall|r: nat| r <= i ==> #[trigger] x.row(r) == y.row(r)
}

/// Projections of matrices that start alike start alike.
proof fn lemma_linear_alike<T: Float>(
    x: Array<T>,
    s: usize,
    y: Array<T>,
    t: usize,
    w: Array<T>,
    n: usize,
    d: usize,
    i: nat,
)
    requires
        alike(x, s, y, t, n, i),
        grid(w, n, d),
    ensures
        alike(linear_of(x, w), s, linear_of(y, w), t, d, i),
{
    lemma_linear_row(x, w, s, n, d, i);
    lemma_linear_row(y, w, t, n, d, i);
    assert forall|r: nat| r <= i implies #[trigger] linear_of(x, w).row(r) == linear_of(y, w).row(
        r,
    ) by {
        lemma_linear_row(x, w, s, n, d, r);
        lemma_linear_row(y, w, t, n, d, r);
        assert(x.row(r) == y.row(r));
    }
}

/// Rotations of matrices that start alike start alike.
proof fn lemma_rope_alike<T: Float>(
    x: Array<T>,
    s: usize,
    y: Array<T>,
    t: usize,
    d: usize,
    i: nat,
)
    requires
        alike(x, s, y, t, d, i),
    ensures
        alike(rope_of(x), s, rope_of(y), t, d, i),
{
    lemma_rope_row(x, s, d, i);
    lemma_rope_row(y, t, d, i);
    assert forall|r: nat| r <= i implies #[trigger] rope_of(x).row(r) == rope_of(y).row(r) by {
        lemma_rope_row(x, s, d, r);
        lemma_rope_row(y, t, d, r);
        assert(x.row(r) == y.row(r));
    }
}

/// Quantised matrices that start alike start alike.
proof fn lemma_restored_alike<T: Float>(
    x: Array<T>,
    s: usize,
    y: Array<T>,
    t: usize,
    d: usize,
    i: nat,
)
    requires
        alike(x, s, y, t, d, i),
    ensures
        alike(restored_acts(x), s, restored_acts(y), t, d, i),
{
    lemma_restored_row(x, s, d, i);
    lemma_restored_row(y, t, d, i);
    assert forall|r: nat| r <= i implies #[trigger] restored_acts(x).row(r) == restored_acts(y).row(
        r,
    ) by {
        lemma_restored_row(x, s, d, r);
        lemma_restored_row(y, t, d, r);
        assert(x.row(r) == y.row(r));
    }
}

/// Normalised matrices that start alike start alike.
proof fn lemma_rmsnorm_alike<T: Float>(
    x: Array<T>,
    s: usize,
    y: Array<T>,
    t: usize,
    d: usize,
    i: nat,
)
    requires
        alike(x, s, y, t, d, i),
    ensures
        alike(rmsnorm_of(x), s, rmsnorm_of(y), t, d, i),
{
    lemma_rmsnorm_row(x, s, d, i);
    lemma_rmsnorm_row(y, t, d, i);
    assert forall|r: nat| r <= i implies #[trigger] rmsnorm_of(x).row(r) == rmsnorm_of(y).row(r) by {
        lemma_rmsnorm_row(x, s, d, r);
        lemma_rmsnorm_row(y, t, d, r);
        assert(x.row(r) == y.row(r));
    }
}

/// Sums of matrices that start alike start alike.
proof fn lemma_add_alike<T: Float>(
    x: Array<T>,
    a: Array<T>,
    s: usize,
    y: Array<T>,
    b: Array<T>,
    t: usize,
    d: usize,
    i: nat,
)
    requires
        alike(x, s, y, t, d, i),
        alike(a, s, b, t, d, i),
    ensures
        alike(add_of(x, a), s, add_of(y, b), t, d, i),
{
    lemma_add_row(x, a, s, d, i);
    lemma_add_row(y, b, t, d, i);
    assert forall|r: nat| r <= i implies #[trigger] add_of(x, a).row(r) == add_of(y, b).row(r) by {
        lemma_add_row(x, a, s, d, r);
        lemma_add_row(y, b, t, d, r);
        assert(x.row(r) == y.row(r));
        assert(a.row(r) == b.row(r));
    }
}

/// The attention weights of row `r` in two windows that start alike: the same up to it,
/// and zero after it.
proof fn lemma_attend_alike<T: Float>(
    q: Array<T>,
    k: Array<T>,
    s: usize,
    p: Array<T>,
    l: Array<T>,
    t: usize,
    scale: T,
    d: usize,
    i: nat,
    r: nat,
)
    requires
        masks::<T>(),
        alike(q, s, p, t, d, i),
        alike(k, s, l, t, d, i),
        calm_row(scores_of(q, k, scale).row(r)),
        calm_row(scores_of(p, l, scale).row(r)),
        r <= i,
    ensures
        grid(attend_of(q, k, scale), s, s),
        grid(attend_of(p, l, scale), t, t),
        attend_of(q, k, scale).row(r).len() == s,
        attend_of(p, l, scale).row(r).len() == t,
        attend_of(q, k, scale).row(r).take((r + 1) as int) == attend_of(p, l, scale).row(r).take(
            (r + 1) as int,
        ),
        forall|u: int|
            r < u < s ==> #[trigger] attend_of(q, k, scale).row(r)[u] == fzero::<T>(),
        forall|u: int|
            r < u < t ==> #[trigger] attend_of(p, l, scale).row(r)[u] == fzero::<T>(),
{
    lemma_score_row(q, k, scale, s, d, r);
    lemma_score_row(p, l, scale, t, d, r);
    let (a, b) = (scores_of(q, k, scale).row(r), scores_of(p, l, scale).row(r));
    assert forall|u: int| 0 <= u <= r implies #[trigger] a[u] == b[u] by {
        assert(q.row(r) == p.row(r));
        assert(k.row(u as nat) == l.row(u as nat));
    }
    assert(a.take((r + 1) as int) =~= b.take((r + 1) as int));
    lemma_soft_tail(a, r + 1);
    lemma_soft_tail(b, r + 1);
}

/// Row `r` of the mixed values of two windows that start alike.
proof fn lemma_mix_alike<T: Float>(
    w: Array<T>,
    v: Array<T>,
    s: usize,
    z: Array<T>,
    y: Array<T>,
    t: usize,
    d: usize,
    i: nat,
    r: nat,
)
    requires
        grid(w, s, s),
        grid(z, t, t),
        alike(v, s, y, t, d, i),
        r <= i,
        w.row(r).len() == s,
        z.row(r).len() == t,
        w.row(r).take((r + 1) as int) == z.row(r).take((r + 1) as int),
        forall|u: int| r < u < s ==> #[trigger] w.row(r)[u] == fzero::<T>(),
        forall|u: int| r < u < t ==> #[trigger] z.row(r)[u] == fzero::<T>(),
        forall|k: int| 0 <= k < v.data.len() ==> inert(#[trigger] v.data[k]),
        forall|k: int| 0 <= k < y.data.len() ==> inert(#[trigger] y.data[k]),
    ensures
        grid(matmul_of(w, v), s, d),
        grid(matmul_of(z, y), t, d),
        matmul_of(w, v).row(r) == matmul_of(z, y).row(r),
{
    lemma_product_row(w, v, s, s, d, r);
    lemma_product_row(z, y, t, t, d, r);
    let (a, b) = (w.row(r), z.row(r));
    let n = (r + 1) as nat;
    assert forall|x: int| 0 <= x < d implies #[trigger] row_times(a, v)[x] == row_times(
        b,
        y,
    )[x] by {
        let (e, g) = (v.col(x as nat), y.col(x as nat));
        lemma_inert_col(v, s, d, x as nat);
        lemma_inert_col(y, t, d, x as nat);
        assert forall|u: int| 0 <= u < n implies #[trigger] e[u] == g[u] by {
            lemma_cross(v, s, d, u as nat, x as nat);
            lemma_cross(y, t, d, u as nat, x as nat);
            assert(v.row(u as nat) == y.row(u as nat));
        }
        let (c, f) = (a.take(n as int), b.take(n as int));
        assert forall|u: int| 0 <= u < n implies #[trigger] a[u] == c[u] by {}
        assert forall|u: int| 0 <= u < n implies #[trigger] b[u] == c[u] by {
            assert(f[u] == c[u]);
        }
        lemma_dot_tail(a, e, c, e, n, s as nat);
        assert forall|u: int| 0 <= u < n implies #[trigger] g[u] == e[u] by {}
        lemma_dot_tail(b, g, c, e, n, t as nat);
    }
    assert(row_times(a, v) =~= row_times(b, y));
}

/// A column of a matrix of inert items is of inert items.
proof fn lemma_inert_col<T: Float>(v: Array<T>, s: usize, d: usize, x: nat)
    requires
        grid(v, s, d),
        x < d,
        forall|k: int| 0 <= k < v.data.len() ==> inert(#[trigger] v.data[k]),
    ensures
        forall|u: int| 0 <= u < s ==> inert(#[trigger] v.col(x)[u]),
{
    assert forall|u: int| 0 <= u < s implies inert(#[trigger] v.col(x)[u]) by {
        lemma_cross(v, s, d, u as nat, x);
        lemma_row(v, s, d, u as nat);
        assert(v.row(u as nat)[x as int] == v.data[u * d + x]);
        assert(inert(v.data[u * d + x]));
    }
}

/// What a head makes of two windows that start alike starts alike.
proof fn lemma_head_alike<T: Float>(
    x: Array<T>,
    s: usize,
    y: Array<T>,
    t: usize,
    h: HeadOf<Array<T>>,
    scale: T,
    c: ModelConfig,
    i: nat,
)
    requires
        masks::<T>(),
        alike(x, s, y, t, c.hidden_dim, i),
        head_grid(h, c),
        calm_head(x, h, scale),
        calm_head(y, h, scale),
    ensures
        alike(head_of(x, h, scale), s, head_of(y, h, scale), t, c.hidden_dim, i),
{
    let (n, d) = (c.hidden_dim, c.head_dim);
    lemma_linear_alike(x, s, y, t, h.w_q, n, d, i);
    lemma_rope_alike(linear_of(x, h.w_q), s, linear_of(y, h.w_q), t, d, i);
    lemma_linear_alike(x, s, y, t, h.w_k, n, d, i);
    lemma_rope_alike(linear_of(x, h.w_k), s, linear_of(y, h.w_k), t, d, i);
    lemma_linear_alike(x, s, y, t, h.w_v, n, d, i);
    let (q, p) = (rope_of(linear_of(x, h.w_q)), rope_of(linear_of(y, h.w_q)));
    let (k, l) = (rope_of(linear_of(x, h.w_k)), rope_of(linear_of(y, h.w_k)));
    let (v, z) = (linear_of(x, h.w_v), linear_of(y, h.w_v));
    let (a, b) = (attend_of(q, k, scale), attend_of(p, l, scale));
    let (f, g) = (matmul_of(a, v), matmul_of(b, z));
    assert forall|r: nat| r <= i implies {
        &&& grid(f, s, d)
        &&& grid(g, t, d)
        &&& #[trigger] f.row(r) == g.row(r)
    } by {
        assert(calm_row(scores_of(q, k, scale).row(r)));
        assert(calm_row(scores_of(p, l, scale).row(r)));
        lemma_attend_alike(q, k, s, p, l, t, scale, d, i, r);
        lemma_mix_alike(a, v, s, b, z, t, d, i, r);
    }
    assert(f.row(i) == g.row(i));
    lemma_restored_alike(f, s, g, t, d, i);
    lemma_linear_alike(restored_acts(f), s, restored_acts(g), t, h.w_o, d, n, i);
}

/// What the first `n` heads make of two windows that start alike starts alike.
proof fn lemma_heads_alike<T: Float>(
    x: Array<T>,
    s: usize,
    y: Array<T>,
    t: usize,
    hs: Seq<HeadOf<Array<T>>>,
    scale: T,
    c: ModelConfig,
    i: nat,
    n: nat,
)
    requires
        masks::<T>(),
        alike(x, s, y, t, c.hidden_dim, i),
        1 <= n <= hs.len(),
        forall|p: int| 0 <= p < hs.len() ==> head_grid(#[trigger] hs[p], c),
        forall|p: int| 0 <= p < hs.len() ==> calm_head(x, #[trigger] hs[p], scale),
        forall|p: int| 0 <= p < hs.len() ==> calm_head(y, #[trigger] hs[p], scale),
    ensures
        alike(heads_of(x, hs, scale, n), s, heads_of(y, hs, scale, n), t, c.hidden_dim, i),
    decreases n,
{
    let h = hs[n - 1];
    assert(head_grid(h, c) && calm_head(x, h, scale) && calm_head(y, h, scale));
    lemma_head_alike(x, s, y, t, h, scale, c, i);
    if n > 1 {
        let m = (n - 1) as nat;
        lemma_heads_alike(x, s, y, t, hs, scale, c, i, m);
        lemma_add_alike(
            heads_of(x, hs, scale, m),
            head_of(x, h, scale),
            s,
            heads_of(y, hs, scale, m),
            head_of(y, h, scale),
            t,
            c.hidden_dim,
            i,
        );
    }
}

/// The gated activations of matrices that start alike start alike.
proof fn lemma_gated_alike<T: Float>(
    x: Array<T>,
    s: usize,
    y: Array<T>,
    t: usize,
    b: BlockOf<Array<T>>,
    c: ModelConfig,
    i: nat,
)
    requires
        alike(x, s, y, t, c.hidden_dim, i),
        block_grid(b, c),
    ensures
        alike(gated_of(x, b.gate, b.up), s, gated_of(y, b.gate, b.up), t, c.ffn_dim, i),
{
    let (n, f) = (c.hidden_dim, c.ffn_dim);
    lemma_linear_alike(x, s, y, t, b.gate, n, f, i);
    lemma_linear_alike(x, s, y, t, b.up, n, f, i);
    let (g, u) = (linear_of(x, b.gate), linear_of(x, b.up));
    let (k, l) = (linear_of(y, b.gate), linear_of(y, b.up));
    let (p, q) = (gated_of(x, b.gate, b.up), gated_of(y, b.gate, b.up));
    assert forall|r: nat| r <= i implies #[trigger] p.row(r) == q.row(r) by {
        lemma_row(g, s, f, r);
        lemma_row(u, s, f, r);
        lemma_row(k, t, f, r);
        lemma_row(l, t, f, r);
        lemma_row(p, s, f, r);
        lemma_row(q, t, f, r);
        assert(g.row(r) == k.row(r));
        assert(u.row(r) == l.row(r));
        assert forall|z: int| 0 <= z < f implies #[trigger] p.row(r)[z] == q.row(r)[z] by {
            assert(g.row(r)[z] == k.row(r)[z]);
            assert(u.row(r)[z] == l.row(r)[z]);
        }
        assert(p.row(r) =~= q.row(r));
    }
}

/// What a block makes of two windows that start alike starts alike.
proof fn lemma_block_alike<T: Float>(
    x: Array<T>,
    s: usize,
    y: Array<T>,
    t: usize,
    b: BlockOf<Array<T>>,
    c: ModelConfig,
    i: nat,
)
    requires
        masks::<T>(),
        alike(x, s, y, t, c.hidden_dim, i),
        block_grid(b, c),
        c.n_heads > 0,
        calm_block(x, b, c.head_dim),
        calm_block(y, b, c.head_dim),
    ensures
        alike(block_of(x, b, c.head_dim), s, block_of(y, b, c.head_dim), t, c.hidden_dim, i),
{
    let n = c.hidden_dim;
    let scale = score_scale::<T>(c.head_dim);
    lemma_rmsnorm_alike(x, s, y, t, n, i);
    lemma_restored_alike(rmsnorm_of(x), s, rmsnorm_of(y), t, n, i);
    lemma_heads_alike(
        restored_acts(rmsnorm_of(x)),
        s,
        restored_acts(rmsnorm_of(y)),
        t,
        b.heads,
        scale,
        c,
        i,
        b.heads.len(),
    );
    lemma_add_alike(
        x,
        attention_of(rmsnorm_of(x), b.heads, c.head_dim),
        s,
        y,
        attention_of(rmsnorm_of(y), b.heads, c.head_dim),
        t,
        n,
        i,
    );
    let (p, q) = (attended_of(x, b, c.head_dim), attended_of(y, b, c.head_dim));
    lemma_rmsnorm_alike(p, s, q, t, n, i);
    lemma_restored_alike(rmsnorm_of(p), s, rmsnorm_of(q), t, n, i);
    let (pe, qe) = (restored_acts(rmsnorm_of(p)), restored_acts(rmsnorm_of(q)));
    lemma_gated_alike(pe, s, qe, t, b, c, i);
    let (g, h) = (gated_of(pe, b.gate, b.up), gated_of(qe, b.gate, b.up));
    lemma_restored_alike(g, s, h, t, c.ffn_dim, i);
    lemma_linear_alike(restored_acts(g), s, restored_acts(h), t, b.down, c.ffn_dim, n, i);
    lemma_add_alike(
        p,
        ffn_of(rmsnorm_of(p), b.gate, b.up, b.down),
        s,
        q,
        ffn_of(rmsnorm_of(q), b.gate, b.up, b.down),
        t,
        n,
        i,
    );
}

/// After `j` blocks two windows that start alike have rows that start alike.
proof fn lemma_blocks_alike<T: Float>(
    m: ModelOf<Array<T>>,
    c: ModelConfig,
    a: Seq<usize>,
    b: Seq<usize>,
    i: nat,
    j: nat,
)
    requires
        masks::<T>(),
        model_grid(m, c),
        c.n_heads > 0,
        a.len() <= usize::MAX,
        b.len() <= usize::MAX,
        ids_below(a, c.vocab_size),
        ids_below(b, c.vocab_size),
        i < a.len(),
        i < b.len(),
        a.take((i + 1) as int) == b.take((i + 1) as int),
        calm(m, a, c.head_dim),
        calm(m, b, c.head_dim),
        j <= m.blocks.len(),
    ensures
        alike(
            blocks_of(embed_of(m.embed, a), m.blocks, c.head_dim, j),
            a.len() as usize,
            blocks_of(embed_of(m.embed, b), m.blocks, c.head_dim, j),
            b.len() as usize,
            c.hidden_dim,
            i,
        ),
    decreases j,
{
    let (s, t) = (a.len() as usize, b.len() as usize);
    let (x0, y0) = (embed_of(m.embed, a), embed_of(m.embed, b));
    if j == 0 {
        assert forall|r: nat| r <= i implies {
            &&& grid(x0, s, c.hidden_dim)
            &&& grid(y0, t, c.hidden_dim)
            &&& #[trigger] x0.row(r) == y0.row(r)
        } by {
            lemma_embed_row(m, c, a, r);
            lemma_embed_row(m, c, b, r);
            lemma_embedded(m, c, a, r);
            lemma_embedded(m, c, b, r);
            assert(a.take((i + 1) as int)[r as int] == a[r as int]);
            assert(b.take((i + 1) as int)[r as int] == b[r as int]);
        }
        assert(x0.row(i) == y0.row(i));
    } else {
        let q = (j - 1) as nat;
        lemma_blocks_alike(m, c, a, b, i, q);
        let x = blocks_of(x0, m.blocks, c.head_dim, q);
        let y = blocks_of(y0, m.blocks, c.head_dim, q);
        assert(block_grid(m.blocks[q as int], c));
        lemma_block_alike(x, s, y, t, m.blocks[q as int], c, i);
    }
}

/// A row of multi-head attention depends on the rows up to it alone: over two matrices
/// that start alike the heads give results that start alike, where they are calm over
/// both.
pub proof fn law_attention_no_look_ahead<T: Float>(
    x: Array<T>,
    s: usize,
    y: Array<T>,
    t: usize,
    heads: Seq<HeadOf<Array<T>>>,
    c: ModelConfig,
    i: nat,
)
    requires
        masks::<T>(),
        alike(x, s, y, t, c.hidden_dim, i),
        heads.len() > 0,
        forall|p: int| 0 <= p < heads.len() ==> head_grid(#[trigger] heads[p], c),
        forall|p: int|
            0 <= p < heads.len() ==> calm_head(
                restored_acts(x),
                #[trigger] heads[p],
                score_scale(c.head_dim),
            ),
        forall|p: int|
            0 <= p < heads.len() ==> calm_head(
                restored_acts(y),
                #[trigger] heads[p],
                score_scale(c.head_dim),
            ),
    ensures
        alike(
            attention_of(x, heads, c.head_dim),
            s,
            attention_of(y, heads, c.head_dim),
            t,
            c.hidden_dim,
            i,
        ),
{
    lemma_restored_alike(x, s, y, t, c.hidden_dim, i);
    lemma_heads_alike(
        restored_acts(x),
        s,
        restored_acts(y),
        t,
        heads,
        score_scale::<T>(c.head_dim),
        c,
        i,
        heads.len(),
    );
}

/// A row of the embedded ids is that of its id.
proof fn lemma_embedded<T: Float>(m: ModelOf<Array<T>>, c: ModelConfig, ids: Seq<usize>, i: nat)
    requires
        model_grid(m, c),
        ids.len() <= usize::MAX,
        ids_below(ids, c.vocab_size),
        i < ids.len(),
    ensures
        embed_of(m.embed, ids).row(i) == m.embed.row(ids[i as int] as nat),
{
    lemma_embed_row(m, c, ids, i);
    reveal(row_at);
}

/// The logits of a row do not depend on later ids: two windows that start alike give
/// alike rows as far as they do, where the heads are calm over both.
pub proof fn law_no_look_ahead<T: Float>(model: Model<T>, a: Seq<usize>, b: Seq<usize>, i: int)
    requires
        masks::<T>(),
        calm(model@, a, model.config.head_dim),
        calm(model@, b, model.config.head_dim),
        model.shaped(),
        model.config.n_heads > 0,
        a.len() <= usize::MAX,
        b.len() <= usize::MAX,
        ids_below(a, model.config.vocab_size),
        ids_below(b, model.config.vocab_size),
        0 <= i < a.len(),
        i < b.len(),
        a.take(i + 1) == b.take(i + 1),
    ensures
        logits_of(model@, a, model.config.head_dim).row(i as nat) == logits_of(
            model@,
            b,
            model.config.head_dim,
        ).row(i as nat),
{
    let (m, c) = (model@, model.config);
    let (s, t) = (a.len() as usize, b.len() as usize);
    let n = c.hidden_dim;
    let k = i as nat;
    lemma_model_grid(model);
    lemma_blocks_alike(m, c, a, b, k, m.blocks.len());
    let x = blocks_of(embed_of(m.embed, a), m.blocks, c.head_dim, m.blocks.len());
    let y = blocks_of(embed_of(m.embed, b), m.blocks, c.head_dim, m.blocks.len());
    lemma_rmsnorm_alike(x, s, y, t, n, k);
    lemma_restored_alike(rmsnorm_of(x), s, rmsnorm_of(y), t, n, k);
    assert(a[0] < c.vocab_size);
    lemma_transpose_col(m.embed, c.vocab_size, n, 0);
    lemma_linear_alike(
        restored_acts(rmsnorm_of(x)),
        s,
        restored_acts(rmsnorm_of(y)),
        t,
        transpose_of(m.embed),
        n,
        c.vocab_size,
        k,
    );
}

/// The cached pass and the whole pass give the same logits after the ids that the model
/// sees.
proof fn lemma_same_logits<T: Float>(model: Model<T>, ids: Seq<usize>)
    requires
        drift_free::<T>(),
        can_generate(model),
        ids.len() > 0,
        ids_below(ids, model.config.vocab_size),
    ensures
        fed_logits(
            model@,
            model.config,
            context_of(ids, model.config.max_seq_len as nat),
        ) == next_logits(model@, model.config, ids),
        next_logits(model@, model.config, ids).len() == model.config.vocab_size,
{
    let (m, c) = (model@, model.config);
    let context = context_of(ids, c.max_seq_len as nat);
    let i = context.len() - 1;
    assert(context.take(i + 1) =~= context);
    law_cached_pass_agrees(model, context, i);
    lemma_model_grid(model);
    lemma_transpose_col(m.embed, c.vocab_size, c.hidden_dim, 0);
}

/// In every mode, and however long the text, the continuation with cached keys and
/// values is the one without.
pub proof fn law_cache_changes_nothing<T: Float>(
    model: Model<T>,
    ids: Seq<usize>,
    mode: SamplingMode<T>,
    state: u64,
    n: nat,
)
    requires
        drift_free::<T>(),
        can_generate(model),
        ids.len() > 0 || n == 0,
        ids_below(ids, model.config.vocab_size),
    ensures
        cached_generated(model@, model.config, ids, mode, state, n) == generated(
            model@,
            model.config,
            ids,
            mode,
            state,
            n,
        ),
        generated(model@, model.config, ids, mode, state, n).0.len() == ids.len() + n,
        ids_below(
            generated(model@, model.config, ids, mode, state, n).0,
            model.config.vocab_size,
        ),
    decreases n,
{
    let (m, c) = (model@, model.config);
    if n > 0 {
        let p = (n - 1) as nat;
        law_cache_changes_nothing(model, ids, mode, state, p);
        let (before, s) = generated(m, c, ids, mode, state, p);
        lemma_same_logits(model, before);
        let t = state_after(mode, c.vocab_size as nat, s);
        lemma_choice_place(next_logits(m, c, before), mode, unit_of::<T>(t));
    }
}

} // verus!
