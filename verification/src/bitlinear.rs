//! Quantisers: ternary weights and 8-bit activations.
use crate::float::{
    clamp, deterministic, fabs, fadd, fbits, fclamp, fcount, fdiv, fdot, feq, flt, fmul, fone,
    fround, fsum, fzero, Float, EPSILON, INT8_MAX, INT8_MIN, MINUS_ONE, ONE, ZERO,
};
use crate::tensor::{
    copy_slice, each, flat, lemma_flat_row, lemma_row_end, lemma_volume1, lemma_volume2, matrix,
    repeat, Array, Tensor,
};
use vstd::prelude::*;

verus! {

/// The mean absolute value of the items.
pub open spec fn absmean<T: Float>(s: Seq<T>) -> T {
    fdiv(fsum(Seq::new(s.len(), |k: int| fabs(s[k]))), fcount::<T>(s.len() as usize))
}

/// One weight divided by the guarded scale, rounded and held between -1 and 1.
pub open spec fn ternary<T: Float>(x: T, gamma: T) -> T {
    fclamp(
        fround(fdiv(x, fadd(gamma, fbits::<T>(EPSILON)))),
        fbits::<T>(MINUS_ONE),
        fone::<T>(),
    )
}

/// The ternary weights of a tensor, under its mean absolute value as the scale.
pub open spec fn ternary_of<T: Float>(w: Array<T>) -> Array<T> {
    each(w, |x: T| ternary(x, absmean(w.data)))
}

/// The largest absolute value of a row, 0 for an empty one.
pub open spec fn absmax<T: Float>(s: Seq<T>) -> T
    decreases s.len(),
{
    if s.len() == 0 {
        fzero::<T>()
    } else {
        let a = absmax(s.drop_last());
        if flt(a, fabs(s.last())) {
            fabs(s.last())
        } else {
            a
        }
    }
}

/// A row scaled so that `a` becomes 127, rounded and held between -128 and
/// 127. Where `a` is 0 the row is all zeros.
pub open spec fn int8_scaled<T: Float>(s: Seq<T>, a: T) -> Seq<T> {
    if feq(a, fzero::<T>()) {
        Seq::new(s.len(), |k: int| fzero::<T>())
    } else {
        Seq::new(
            s.len(),
            |k: int|
                fclamp(
                    fround(fmul(s[k], fdiv(fbits::<T>(INT8_MAX), a))),
                    fbits::<T>(INT8_MIN),
                    fbits::<T>(INT8_MAX),
                ),
        )
    }
}

/// A row scaled by its own largest absolute value.
pub open spec fn int8_row<T: Float>(s: Seq<T>) -> Seq<T> {
    int8_scaled(s, absmax(s))
}

/// The 8-bit rows of a matrix.
pub open spec fn int8_rows<T: Float>(x: Array<T>) -> spec_fn(nat) -> Seq<T> {
    |i: nat| int8_row(x.row(i))
}

/// The 8-bit activations of a matrix.
pub open spec fn int8_of<T: Float>(x: Array<T>) -> Array<T> {
    matrix(x.dims[0], x.dims[1], int8_rows(x))
}

/// The scale of each row of a matrix.
pub open spec fn row_scales<T: Float>(x: Array<T>) -> Array<T> {
    Array {
        data: Seq::new(x.dims[0] as nat, |i: int| absmax(x.row(i as nat))),
        dims: seq![x.dims[0]],
    }
}

/// Ternary weights multiplied back by their scale.
pub open spec fn ternary_weights<T: Float>(w: Array<T>) -> Array<T> {
    each(w, |x: T| fmul(ternary(x, absmean(w.data)), absmean(w.data)))
}

/// A row of 8-bit activations multiplied back by its scale.
pub open spec fn restored_row<T: Float>(s: Seq<T>) -> Seq<T> {
    Seq::new(
        s.len(),
        |k: int|
            fmul(
                int8_row(s)[k],
                fmul(absmax(s), fdiv(fone::<T>(), fbits::<T>(INT8_MAX))),
            ),
    )
}

/// The restored rows of a matrix.
pub open spec fn restored_rows<T: Float>(x: Array<T>) -> spec_fn(nat) -> Seq<T> {
    |i: nat| restored_row(x.row(i))
}

/// 8-bit activations multiplied back by the scales of their rows.
pub open spec fn restored_acts<T: Float>(x: Array<T>) -> Array<T> {
    matrix(x.dims[0], x.dims[1], restored_rows(x))
}

/// Adds up the absolute values and divides by their number.
fn mean_abs<T: Float>(xs: &[T]) -> (r: T)
    ensures
        deterministic::<T>() ==> r == absmean(xs@),
{
    let mut out: Vec<T> = Vec::new();
    let mut i: usize = 0;
    while i < xs.len()
        invariant
            i <= xs.len(),
            out.len() == i,
            deterministic::<T>() ==> forall|k: int| 0 <= k < i ==> out@[k] == fabs(xs@[k]),
        decreases xs.len() - i,
    {
        out.push(xs[i].abs());
        i += 1;
    }
    proof {
        if deterministic::<T>() {
            assert(out@ =~= Seq::new(xs@.len(), |k: int| fabs(xs@[k])));
        }
    }
    crate::float::sum(out.as_slice()).over(T::from_count(xs.len()))
}

/// Ternary weights and their scale: the scale is the mean absolute value, and
/// each weight is rounded to -1, 0 or 1 after division by it.
pub fn absmean_ternary<T: Float>(w: &Tensor<T>) -> (r: (Tensor<T>, T))
    requires
        w.wf(),
    ensures
        r.0.wf(),
        r.0.shape@ == w.shape@,
        deterministic::<T>() ==> r.0@ == ternary_of(w@) && r.1 == absmean(w.data@),
{
    let gamma = mean_abs(w.data.as_slice());
    let denom = gamma.plus(T::from_bits(EPSILON));
    let lo = T::from_bits(MINUS_ONE);
    let hi = T::from_bits(ONE);
    let mut out: Vec<T> = Vec::new();
    let mut i: usize = 0;
    while i < w.data.len()
        invariant
            i <= w.data.len(),
            out.len() == i,
            deterministic::<T>() ==> gamma == absmean(w.data@) && denom == fadd(
                gamma,
                fbits::<T>(EPSILON),
            ) && lo == fbits::<T>(MINUS_ONE) && hi == fone::<T>(),
            deterministic::<T>() ==> forall|k: int|
                0 <= k < i ==> out@[k] == ternary(w.data@[k], gamma),
        decreases w.data.len() - i,
    {
        out.push(clamp(w.data[i].over(denom).round(), lo, hi));
        i += 1;
    }
    let q = Tensor { data: out, shape: copy_slice(w.shape.as_slice()) };
    proof {
        if deterministic::<T>() {
            assert(q@ =~= ternary_of(w@));
        }
    }
    (q, gamma)
}

/// The largest absolute value of a row.
pub fn max_abs<T: Float>(xs: &[T]) -> (r: T)
    ensures
        deterministic::<T>() ==> r == absmax(xs@),
{
    let mut a = T::from_bits(ZERO);
    let mut i: usize = 0;
    while i < xs.len()
        invariant
            i <= xs.len(),
            deterministic::<T>() ==> a == absmax(xs@.take(i as int)),
        decreases xs.len() - i,
    {
        let v = xs[i].abs();
        if a.below(v) {
            a = v;
        }
        i += 1;
        proof {
            assert(xs@.take(i as int).drop_last() =~= xs@.take(i - 1));
        }
    }
    proof {
        assert(xs@.take(i as int) =~= xs@);
    }
    a
}

/// The 8-bit row for a scale.
pub fn quantise_row<T: Float>(xs: &[T], a: T) -> (r: Vec<T>)
    ensures
        r@.len() == xs@.len(),
        deterministic::<T>() ==> r@ == int8_scaled(xs@, a),
{
    let zero = T::from_bits(ZERO);
    if a.same(zero) {
        let r = repeat(zero, xs.len());
        proof {
            if deterministic::<T>() {
                assert(r@ =~= int8_scaled(xs@, a));
            }
        }
        return r;
    }
    let hi = T::from_bits(INT8_MAX);
    let lo = T::from_bits(INT8_MIN);
    let scale = hi.over(a);
    let mut out: Vec<T> = Vec::new();
    let mut i: usize = 0;
    while i < xs.len()
        invariant
            i <= xs.len(),
            out.len() == i,
            deterministic::<T>() ==> hi == fbits::<T>(INT8_MAX) && lo == fbits::<T>(INT8_MIN)
                && scale == fdiv(hi, a),
            deterministic::<T>() ==> forall|k: int|
                0 <= k < i ==> out@[k] == fclamp(fround(fmul(xs@[k], scale)), lo, hi),
        decreases xs.len() - i,
    {
        out.push(clamp(xs[i].times(scale).round(), lo, hi));
        i += 1;
    }
    proof {
        if deterministic::<T>() {
            assert(out@ =~= int8_scaled(xs@, a));
        }
    }
    out
}

/// 8-bit activations and the scale of each row: the scale is the largest
/// absolute value of the row, which is mapped to 127.
pub fn absmax_int8<T: Float>(x: &Tensor<T>) -> (r: (Tensor<T>, Tensor<T>))
    requires
        x.wf(),
        x.shape@.len() == 2,
    ensures
        r.0.wf(),
        r.0.shape@ == x.shape@,
        r.1.wf(),
        r.1.shape@ == seq![x.shape@[0]],
        deterministic::<T>() ==> r.0@ == int8_of(x@) && r.1@ == row_scales(x@),
{
    let m: usize = x.shape[0];
    let n: usize = x.shape[1];
    let ghost g = int8_rows(x@);
    let mut out: Vec<T> = Vec::new();
    let mut alpha: Vec<T> = Vec::new();
    let mut i: usize = 0;
    proof {
        lemma_volume2(x.shape@);
    }
    while i < m
        invariant
            i <= m,
            x.wf(),
            x.shape@.len() == 2,
            m == x.shape@[0],
            n == x.shape@[1],
            g == int8_rows(x@),
            out.len() == i * n,
            alpha.len() == i,
            deterministic::<T>() ==> out@ == flat(i as nat, g),
            deterministic::<T>() ==> forall|k: int|
                0 <= k < i ==> alpha@[k] == absmax(x@.row(k as nat)),
        decreases m - i,
    {
        proof {
            lemma_row_end(i as int, m as int, n as int);
        }
        let xs = x.row(i);
        let a = max_abs(xs);
        let mut line = quantise_row(xs, a);
        proof {
            if deterministic::<T>() {
                assert(line@ == g(i as nat));
            }
        }
        out.append(&mut line);
        alpha.push(a);
        i += 1;
    }
    let mut scales: Vec<usize> = Vec::new();
    scales.push(m);
    let q = Tensor { data: out, shape: copy_slice(x.shape.as_slice()) };
    let s = Tensor { data: alpha, shape: scales };
    proof {
        lemma_volume1(s.shape@);
        assert(s.shape@ =~= seq![m]);
        if deterministic::<T>() {
            assert(q@ =~= int8_of(x@));
            assert(s@ =~= row_scales(x@));
        }
    }
    (q, s)
}

/// Weights quantised to ternary and multiplied back by the scale.
pub fn dequantised_weights<T: Float>(w: &Tensor<T>) -> (r: Tensor<T>)
    requires
        w.wf(),
    ensures
        r.wf(),
        r.shape@ == w.shape@,
        deterministic::<T>() ==> r@ == ternary_weights(w@),
{
    let (q, gamma) = absmean_ternary(w);
    let r = q.mul_scalar(gamma);
    proof {
        if deterministic::<T>() {
            assert(r@ =~= ternary_weights(w@));
        }
    }
    r
}

/// Activations quantised to 8 bits row by row and multiplied back by the scales.
pub fn dequantised_acts<T: Float>(x: &Tensor<T>) -> (r: Tensor<T>)
    requires
        x.wf(),
        x.shape@.len() == 2,
    ensures
        r.wf(),
        r.shape@ == x.shape@,
        deterministic::<T>() ==> r@ == restored_acts(x@),
{
    let (q, alpha) = absmax_int8(x);
    let m: usize = x.shape[0];
    let n: usize = x.shape[1];
    let inv = T::from_bits(ONE).over(T::from_bits(INT8_MAX));
    let ghost g = restored_rows(x@);
    let ghost qg = int8_rows(x@);
    let mut out: Vec<T> = Vec::new();
    let mut i: usize = 0;
    proof {
        lemma_volume2(x.shape@);
        lemma_volume1(alpha.shape@);
    }
    while i < m
        invariant
            i <= m,
            x.wf(),
            x.shape@.len() == 2,
            m == x.shape@[0],
            n == x.shape@[1],
            x.data@.len() == m * n,
            q.wf(),
            q.shape@ == x.shape@,
            alpha.data@.len() == m,
            g == restored_rows(x@),
            qg == int8_rows(x@),
            deterministic::<T>() ==> inv == fdiv(fone::<T>(), fbits::<T>(INT8_MAX)) && q@
                == int8_of(x@) && alpha@ == row_scales(x@),
            out.len() == i * n,
            deterministic::<T>() ==> out@ == flat(i as nat, g),
        decreases m - i,
    {
        proof {
            lemma_row_end(i as int, m as int, n as int);
        }
        let scale = alpha.data[i].times(inv);
        let qs = q.row(i);
        let mut line: Vec<T> = Vec::new();
        let mut j: usize = 0;
        while j < n
            invariant
                j <= n,
                qs@.len() == n,
                line.len() == j,
                deterministic::<T>() ==> forall|k: int|
                    0 <= k < j ==> line@[k] == fmul(qs@[k], scale),
            decreases n - j,
        {
            line.push(qs[j].times(scale));
            j += 1;
        }
        proof {
            if deterministic::<T>() {
                assert forall|k: nat| k < m implies (#[trigger] qg(k)).len() == n by {
                    lemma_row_end(k as int, m as int, n as int);
                }
                lemma_flat_row(m as nat, n as nat, qg, i as nat);
                assert(qs@ == int8_row(x@.row(i as nat)));
                assert(line@ =~= g(i as nat));
            }
        }
        out.append(&mut line);
        i += 1;
    }
    let r = Tensor { data: out, shape: copy_slice(x.shape.as_slice()) };
    proof {
        if deterministic::<T>() {
            assert(r@ =~= restored_acts(x@));
        }
    }
    r
}

/// Arithmetic in which common factors can be taken out of a sum of products.
#[verifier::opaque]
pub open spec fn factors_out<T: Float>() -> bool {
    &&& forall|a: T, b: T, c: T| #[trigger]
        fadd(fmul(a, c), fmul(b, c)) == fmul(fadd(a, b), c)
    &&& forall|a: T, b: T, c: T, d: T| #[trigger]
        fmul(fmul(a, b), fmul(c, d)) == fmul(fmul(a, c), fmul(b, d))
    &&& forall|a: T| #[trigger] fmul(fzero::<T>(), a) == fzero::<T>()
}

/// A sum of products of scaled items is the scaled sum of products.
pub proof fn lemma_dot_scaled<T: Float>(
    a: Seq<T>,
    b: Seq<T>,
    x: Seq<T>,
    y: Seq<T>,
    f: T,
    g: T,
    n: nat,
)
    requires
        factors_out::<T>(),
        forall|k: int| 0 <= k < n ==> #[trigger] a[k] == fmul(x[k], f),
        forall|k: int| 0 <= k < n ==> #[trigger] b[k] == fmul(y[k], g),
    ensures
        fdot(a, b, n) == fmul(fdot(x, y, n), fmul(f, g)),
    decreases n,
{
    reveal(factors_out);
    if n > 0 {
        lemma_dot_scaled(a, b, x, y, f, g, (n - 1) as nat);
        assert(a[n - 1] == fmul(x[n - 1], f));
        assert(b[n - 1] == fmul(y[n - 1], g));
        let (d, e) = (fdot(x, y, (n - 1) as nat), fmul(x[n - 1], y[n - 1]));
        assert(fadd(fmul(d, fmul(f, g)), fmul(e, fmul(f, g))) == fmul(fadd(d, e), fmul(f, g)));
    }
}

/// An item of the quantised product is the product of the 8-bit activations and the
/// ternary weights, scaled once by both scales: the whole product can be taken on
/// integers and scaled afterwards.
pub proof fn law_integer_product_then_scale<T: Float>(x: Array<T>, w: Array<T>, i: nat, j: nat)
    requires
        factors_out::<T>(),
        x.wf() && w.wf(),
        x.dims.len() == 2 && w.dims.len() == 2,
        x.dims[1] == w.dims[0],
        i < x.dims[0],
        j < w.dims[1],
    ensures
        fdot(
            restored_row(x.row(i)),
            ternary_weights(w).col(j),
            x.dims[1] as nat,
        ) == fmul(
            fdot(int8_row(x.row(i)), ternary_of(w).col(j), x.dims[1] as nat),
            fmul(
                fmul(absmax(x.row(i)), fdiv(fone::<T>(), fbits::<T>(INT8_MAX))),
                absmean(w.data),
            ),
        ),
{
    let s = x.row(i);
    let n = x.dims[1] as nat;
    let (a, b) = (restored_row(s), ternary_weights(w).col(j));
    let (p, q) = (int8_row(s), ternary_of(w).col(j));
    let f = fmul(absmax(s), fdiv(fone::<T>(), fbits::<T>(INT8_MAX)));
    lemma_volume2(x.dims);
    lemma_volume2(w.dims);
    lemma_row_end(i as int, x.dims[0] as int, x.dims[1] as int);
    assert forall|k: int| 0 <= k < n implies #[trigger] b[k] == fmul(q[k], absmean(w.data)) by {
        lemma_row_end(k, w.dims[0] as int, w.dims[1] as int);
    }
    lemma_dot_scaled(a, b, p, q, f, absmean(w.data), n);
}

} // verus!
