//! Tensor operations of the transformer and their gradients.
use crate::float::{
    deterministic, dot, fadd, fbits, fcos, fcount, fdiv, fdot, fexp, fln, flt, fmul, fneg, fone,
    fpow, fsin, fsqrt, fsub, fsum, fzero, sum, Float, EPSILON, NEG_INFINITY, ONE, ROPE_BASE, TWO,
    ZERO,
};
use crate::tensor::{
    copy_slice, each, each2, flat, lemma_row_end, lemma_volume1, lemma_volume2, matrix, repeat,
    Array, Tensor,
};
use vstd::prelude::*;

verus! {

/// The largest item of a row, negative infinity for an empty one.
pub open spec fn row_max<T: Float>(s: Seq<T>) -> T
    decreases s.len(),
{
    if s.len() == 0 {
        fbits::<T>(NEG_INFINITY)
    } else {
        let m = row_max(s.drop_last());
        if flt(m, s.last()) {
            s.last()
        } else {
            m
        }
    }
}

/// The exponentials of the items after their largest is taken off.
pub open spec fn shifted_exps<T: Float>(s: Seq<T>) -> Seq<T> {
    Seq::new(s.len(), |k: int| fexp(fsub(s[k], row_max(s))))
}

/// The softmax of a row.
pub open spec fn softmax_row<T: Float>(s: Seq<T>) -> Seq<T> {
    Seq::new(
        s.len(),
        |k: int| fmul(shifted_exps(s)[k], fdiv(fone::<T>(), fsum(shifted_exps(s)))),
    )
}

/// The softmax of every row.
pub open spec fn softmax_rows<T: Float>(x: Array<T>) -> spec_fn(nat) -> Seq<T> {
    |i: nat| softmax_row(x.row(i))
}

/// The row-wise softmax of a matrix.
pub open spec fn softmax_of<T: Float>(x: Array<T>) -> Array<T> {
    matrix(x.dims[0], x.dims[1], softmax_rows(x))
}

/// The gradient of a row-wise softmax with output `s`, for one row.
pub open spec fn softmax_grad_row<T: Float>(g: Seq<T>, s: Seq<T>) -> Seq<T> {
    Seq::new(s.len(), |k: int| fmul(s[k], fsub(g[k], fdot(g, s, s.len()))))
}

/// The softmax gradient of every row.
pub open spec fn softmax_grad_rows<T: Float>(g: Array<T>, s: Array<T>) -> spec_fn(nat) -> Seq<T> {
    |i: nat| softmax_grad_row(g.row(i), s.row(i))
}

/// The gradient of a row-wise softmax with output `s`.
pub open spec fn softmax_grad_of<T: Float>(g: Array<T>, s: Array<T>) -> Array<T> {
    matrix(s.dims[0], s.dims[1], softmax_grad_rows(g, s))
}

/// The guarded root mean square of a row.
pub open spec fn rms<T: Float>(s: Seq<T>) -> T {
    fsqrt(
        fadd(
            fdiv(fsum(Seq::new(s.len(), |k: int| fmul(s[k], s[k]))), fcount::<T>(s.len() as usize)),
            fbits::<T>(EPSILON),
        ),
    )
}

/// A row divided by its root mean square.
pub open spec fn rmsnorm_row<T: Float>(s: Seq<T>) -> Seq<T> {
    Seq::new(s.len(), |k: int| fmul(s[k], fdiv(fone::<T>(), rms(s))))
}

/// The normalised rows of a matrix.
pub open spec fn rmsnorm_rows<T: Float>(x: Array<T>) -> spec_fn(nat) -> Seq<T> {
    |i: nat| rmsnorm_row(x.row(i))
}

/// Every row divided by its root mean square.
pub open spec fn rmsnorm_of<T: Float>(x: Array<T>) -> Array<T> {
    matrix(x.dims[0], x.dims[1], rmsnorm_rows(x))
}

/// The factor that the row's direction is weighted with in the normalisation gradient.
pub open spec fn rms_factor<T: Float>(g: Seq<T>, x: Seq<T>) -> T {
    let inv = fdiv(fone::<T>(), rms(x));
    fdiv(fmul(fdot(x, g, x.len()), fmul(fmul(inv, inv), inv)), fcount::<T>(x.len() as usize))
}

/// The gradient of the normalisation of row `x`.
pub open spec fn rmsnorm_grad_row<T: Float>(g: Seq<T>, x: Seq<T>) -> Seq<T> {
    Seq::new(
        x.len(),
        |k: int|
            fsub(fmul(g[k], fdiv(fone::<T>(), rms(x))), fmul(x[k], rms_factor(g, x))),
    )
}

/// The normalisation gradient of every row.
pub open spec fn rmsnorm_grad_rows<T: Float>(g: Array<T>, x: Array<T>) -> spec_fn(nat) -> Seq<T> {
    |i: nat| rmsnorm_grad_row(g.row(i), x.row(i))
}

/// The gradient of the row-wise normalisation of `x`.
pub open spec fn rmsnorm_grad_of<T: Float>(g: Array<T>, x: Array<T>) -> Array<T> {
    matrix(x.dims[0], x.dims[1], rmsnorm_grad_rows(g, x))
}

/// Row `i` with every later position replaced by `fill`.
pub open spec fn masked_row<T: Float>(s: Seq<T>, i: nat, fill: T) -> Seq<T> {
    Seq::new(
        s.len(),
        |j: int|
            if j > i {
                fill
            } else {
                s[j]
            },
    )
}

/// The rows of a causal mask.
pub open spec fn masked_rows<T: Float>(x: Array<T>, fill: T) -> spec_fn(nat) -> Seq<T> {
    |i: nat| masked_row(x.row(i), i, fill)
}

/// A matrix whose items above the diagonal are negative infinity.
pub open spec fn causal_mask_of<T: Float>(x: Array<T>) -> Array<T> {
    matrix(x.dims[0], x.dims[1], masked_rows(x, fbits::<T>(NEG_INFINITY)))
}

/// A matrix whose items above the diagonal are zero.
pub open spec fn causal_mask_grad_of<T: Float>(g: Array<T>) -> Array<T> {
    matrix(g.dims[0], g.dims[1], masked_rows(g, fzero::<T>()))
}

/// The rotation angle of pair `i` at position `pos`.
pub open spec fn rope_angle<T: Float>(pos: usize, i: usize, head_dim: usize) -> T {
    fmul(
        fcount::<T>(pos),
        fpow(
            fbits::<T>(ROPE_BASE),
            fdiv(fneg(fmul(fbits::<T>(TWO), fcount::<T>(i))), fcount::<T>(head_dim)),
        ),
    )
}

/// Each pair of a row rotated by its angle at position `pos`.
pub open spec fn rope_row<T: Float>(s: Seq<T>, pos: usize) -> Seq<T> {
    Seq::new(
        s.len(),
        |k: int|
            {
                let angle = rope_angle::<T>(pos, (k / 2) as usize, s.len() as usize);
                if k % 2 == 0 {
                    fsub(fmul(s[k], fcos(angle)), fmul(s[k + 1], fsin(angle)))
                } else {
                    fadd(fmul(s[k - 1], fsin(angle)), fmul(s[k], fcos(angle)))
                }
            },
    )
}

/// The rotated rows of a matrix.
pub open spec fn rope_rows<T: Float>(x: Array<T>) -> spec_fn(nat) -> Seq<T> {
    |i: nat| rope_row(x.row(i), i as usize)
}

/// Each row rotated by the angles of its position.
pub open spec fn rope_of<T: Float>(x: Array<T>) -> Array<T> {
    matrix(x.dims[0], x.dims[1], rope_rows(x))
}

/// Each pair of a gradient row rotated back by its angle at position `pos`.
pub open spec fn rope_grad_row<T: Float>(g: Seq<T>, pos: usize) -> Seq<T> {
    Seq::new(
        g.len(),
        |k: int|
            {
                let angle = rope_angle::<T>(pos, (k / 2) as usize, g.len() as usize);
                if k % 2 == 0 {
                    fadd(fmul(g[k], fcos(angle)), fmul(g[k + 1], fsin(angle)))
                } else {
                    fadd(fmul(fneg(g[k - 1]), fsin(angle)), fmul(g[k], fcos(angle)))
                }
            },
    )
}

/// The back-rotated rows of a gradient.
pub open spec fn rope_grad_rows<T: Float>(g: Array<T>) -> spec_fn(nat) -> Seq<T> {
    |i: nat| rope_grad_row(g.row(i), i as usize)
}

/// The gradient of the row-wise rotation.
pub open spec fn rope_grad_of<T: Float>(g: Array<T>) -> Array<T> {
    matrix(g.dims[0], g.dims[1], rope_grad_rows(g))
}

/// The logistic function.
pub open spec fn sigmoid<T: Float>(x: T) -> T {
    fdiv(fone::<T>(), fadd(fone::<T>(), fexp(fneg(x))))
}

/// `x` times its logistic.
pub open spec fn silu_of<T: Float>(x: Array<T>) -> Array<T> {
    each(x, |v: T| fmul(v, sigmoid(v)))
}

/// The derivative of `x` times its logistic.
pub open spec fn silu_slope<T: Float>(x: T) -> T {
    fmul(sigmoid(x), fadd(fone::<T>(), fmul(x, fsub(fone::<T>(), sigmoid(x)))))
}

/// The gradient of `x` times its logistic.
pub open spec fn silu_grad_of<T: Float>(g: Array<T>, x: Array<T>) -> Array<T> {
    each2(g, x, |d: T, v: T| fmul(d, silu_slope(v)))
}

/// Every item, or zero where it is not above zero.
pub open spec fn relu_of<T: Float>(x: Array<T>) -> Array<T> {
    each(
        x,
        |v: T|
            if flt(fzero::<T>(), v) {
                v
            } else {
                fzero::<T>()
            },
    )
}

/// The gradient where the input was above zero, zero elsewhere.
pub open spec fn relu_grad_of<T: Float>(g: Array<T>, x: Array<T>) -> Array<T> {
    each2(
        g,
        x,
        |d: T, v: T|
            if flt(fzero::<T>(), v) {
                d
            } else {
                fzero::<T>()
            },
    )
}

/// The mean of all items, as a vector of one.
pub open spec fn mean_of<T: Float>(x: Array<T>) -> Array<T> {
    Array {
        data: seq![fdiv(fsum(x.data), fcount::<T>(x.data.len() as usize))],
        dims: seq![1usize],
    }
}

/// The gradient of the mean: its share for every item.
pub open spec fn mean_grad_of<T: Float>(g: Array<T>, x: Array<T>) -> Array<T> {
    Array {
        data: Seq::new(
            x.data.len(),
            |k: int|
                fmul(g.data[0], fdiv(fone::<T>(), fcount::<T>(x.data.len() as usize))),
        ),
        dims: x.dims,
    }
}

/// The rows that the ids pick.
pub open spec fn picked_rows<T: Float>(w: Array<T>, ids: Seq<usize>) -> spec_fn(nat) -> Seq<T> {
    |i: nat| w.row(ids[i as int] as nat)
}

/// The rows that the ids pick, in their order.
pub open spec fn embed_of<T: Float>(w: Array<T>, ids: Seq<usize>) -> Array<T> {
    matrix(ids.len() as usize, w.dims[1], picked_rows(w, ids))
}

/// The first `n` gradient rows added to the rows their ids picked.
pub open spec fn scattered<T: Float>(
    size: nat,
    hidden: usize,
    ids: Seq<usize>,
    g: Seq<T>,
    n: nat,
) -> Seq<T>
    decreases n,
{
    if n == 0 {
        Seq::new(size, |k: int| fzero::<T>())
    } else {
        let before = scattered(size, hidden, ids, g, (n - 1) as nat);
        let at = ids[n - 1] * hidden;
        Seq::new(
            size,
            |k: int|
                if at <= k < at + hidden {
                    fadd(before[k], g[(n - 1) * hidden + (k - at)])
                } else {
                    before[k]
                },
        )
    }
}

/// The gradient of a row lookup: every gradient row added to the row it came from.
pub open spec fn embed_grad_of<T: Float>(g: Array<T>, w: Array<T>, ids: Seq<usize>) -> Array<T> {
    Array { data: scattered(w.data.len(), w.dims[1], ids, g.data, ids.len()), dims: w.dims }
}

/// The negative log-probability of item `t` under the softmax of a row.
pub open spec fn row_loss<T: Float>(s: Seq<T>, t: usize) -> T {
    fneg(fsub(s[t as int], fadd(row_max(s), fln(fsum(shifted_exps(s))))))
}

/// The mean loss over the rows, as a number.
pub open spec fn mean_loss<T: Float>(logits: Array<T>, targets: Seq<usize>) -> T {
    fdiv(
        fsum(
            Seq::new(
                logits.dims[0] as nat,
                |i: int| row_loss(logits.row(i as nat), targets[i]),
            ),
        ),
        fcount::<T>(logits.dims[0]),
    )
}

/// The mean loss over the rows, as a vector of one.
pub open spec fn cross_entropy_of<T: Float>(logits: Array<T>, targets: Seq<usize>) -> Array<T> {
    Array { data: seq![mean_loss(logits, targets)], dims: seq![1usize] }
}

/// The row of probabilities with one taken off at the target, scaled by `g`.
pub open spec fn loss_grad_row<T: Float>(s: Seq<T>, t: usize, g: T) -> Seq<T> {
    Seq::new(
        s.len(),
        |j: int|
            fmul(
                if j == t {
                    fsub(s[j], fone::<T>())
                } else {
                    s[j]
                },
                g,
            ),
    )
}

/// The loss gradient of every row.
pub open spec fn loss_grad_rows<T: Float>(
    probs: Array<T>,
    targets: Seq<usize>,
    g: T,
) -> spec_fn(nat) -> Seq<T> {
    |i: nat| loss_grad_row(probs.row(i), targets[i as int], g)
}

/// The gradient of the mean loss for probabilities `probs` and incoming gradient `g`.
pub open spec fn cross_entropy_grad_of<T: Float>(
    g: Array<T>,
    probs: Array<T>,
    targets: Seq<usize>,
) -> Array<T> {
    matrix(
        probs.dims[0],
        probs.dims[1],
        loss_grad_rows(
            probs,
            targets,
            fmul(g.data[0], fdiv(fone::<T>(), fcount::<T>(probs.dims[0]))),
        ),
    )
}

/// Every id names a row of the matrix.
pub open spec fn ids_below(ids: Seq<usize>, n: usize) -> bool {
    forall|i: int| 0 <= i < ids.len() ==> #[trigger] ids[i] < n
}

/// The largest item of a row.
pub fn max_of_row<T: Float>(xs: &[T]) -> (r: T)
    ensures
        deterministic::<T>() ==> r == row_max(xs@),
{
    let mut m = T::from_bits(NEG_INFINITY);
    let mut i: usize = 0;
    while i < xs.len()
        invariant
            i <= xs.len(),
            deterministic::<T>() ==> m == row_max(xs@.take(i as int)),
        decreases xs.len() - i,
    {
        if m.below(xs[i]) {
            m = xs[i];
        }
        i += 1;
        proof {
            assert(xs@.take(i as int).drop_last() =~= xs@.take(i - 1));
        }
    }
    proof {
        assert(xs@.take(i as int) =~= xs@);
    }
    m
}

/// The exponentials of the items after `top` is taken off.
fn exps_below<T: Float>(xs: &[T], top: T) -> (r: Vec<T>)
    ensures
        r@.len() == xs@.len(),
        deterministic::<T>() ==> r@ == Seq::new(xs@.len(), |k: int| fexp(fsub(xs@[k], top))),
{
    let mut out: Vec<T> = Vec::new();
    let mut i: usize = 0;
    while i < xs.len()
        invariant
            i <= xs.len(),
            out.len() == i,
            deterministic::<T>() ==> forall|k: int|
                0 <= k < i ==> out@[k] == fexp(fsub(xs@[k], top)),
        decreases xs.len() - i,
    {
        out.push(xs[i].minus(top).exp());
        i += 1;
    }
    proof {
        if deterministic::<T>() {
            assert(out@ =~= Seq::new(xs@.len(), |k: int| fexp(fsub(xs@[k], top))));
        }
    }
    out
}

/// A row multiplied by `s`.
pub fn scale_row<T: Float>(xs: &[T], s: T) -> (r: Vec<T>)
    ensures
        r@.len() == xs@.len(),
        deterministic::<T>() ==> r@ == Seq::new(xs@.len(), |k: int| fmul(xs@[k], s)),
{
    let mut out: Vec<T> = Vec::new();
    let mut i: usize = 0;
    while i < xs.len()
        invariant
            i <= xs.len(),
            out.len() == i,
            deterministic::<T>() ==> forall|k: int| 0 <= k < i ==> out@[k] == fmul(xs@[k], s),
        decreases xs.len() - i,
    {
        out.push(xs[i].times(s));
        i += 1;
    }
    proof {
        if deterministic::<T>() {
            assert(out@ =~= Seq::new(xs@.len(), |k: int| fmul(xs@[k], s)));
        }
    }
    out
}

/// The softmax of a row.
pub fn softmax_line<T: Float>(xs: &[T]) -> (r: Vec<T>)
    ensures
        r@.len() == xs@.len(),
        deterministic::<T>() ==> r@ == softmax_row(xs@),
{
    let top = max_of_row(xs);
    let exps = exps_below(xs, top);
    let inv = T::from_bits(ONE).over(sum(exps.as_slice()));
    let r = scale_row(exps.as_slice(), inv);
    proof {
        if deterministic::<T>() {
            assert(exps@ =~= shifted_exps(xs@));
            assert(r@ =~= softmax_row(xs@));
        }
    }
    r
}

/// The softmax gradient of a row.
fn softmax_grad_line<T: Float>(g: &[T], s: &[T]) -> (r: Vec<T>)
    requires
        g@.len() == s@.len(),
    ensures
        r@.len() == s@.len(),
        deterministic::<T>() ==> r@ == softmax_grad_row(g@, s@),
{
    let d = dot(g, s);
    let mut out: Vec<T> = Vec::new();
    let mut i: usize = 0;
    while i < s.len()
        invariant
            i <= s.len(),
            g@.len() == s@.len(),
            out.len() == i,
            deterministic::<T>() ==> forall|k: int|
                0 <= k < i ==> out@[k] == fmul(s@[k], fsub(g@[k], d)),
        decreases s.len() - i,
    {
        out.push(s[i].times(g[i].minus(d)));
        i += 1;
    }
    proof {
        if deterministic::<T>() {
            assert(out@ =~= softmax_grad_row(g@, s@));
        }
    }
    out
}

/// The guarded root mean square of a row.
pub fn rms_of_row<T: Float>(xs: &[T]) -> (r: T)
    ensures
        deterministic::<T>() ==> r == rms(xs@),
{
    let mut squares: Vec<T> = Vec::new();
    let mut i: usize = 0;
    while i < xs.len()
        invariant
            i <= xs.len(),
            squares.len() == i,
            deterministic::<T>() ==> forall|k: int|
                0 <= k < i ==> squares@[k] == fmul(xs@[k], xs@[k]),
        decreases xs.len() - i,
    {
        squares.push(xs[i].times(xs[i]));
        i += 1;
    }
    proof {
        if deterministic::<T>() {
            assert(squares@ =~= Seq::new(xs@.len(), |k: int| fmul(xs@[k], xs@[k])));
        }
    }
    sum(squares.as_slice()).over(T::from_count(xs.len())).plus(T::from_bits(EPSILON)).sqrt()
}

/// A row divided by its root mean square.
pub fn rmsnorm_line<T: Float>(xs: &[T]) -> (r: Vec<T>)
    ensures
        r@.len() == xs@.len(),
        deterministic::<T>() ==> r@ == rmsnorm_row(xs@),
{
    let inv = T::from_bits(ONE).over(rms_of_row(xs));
    let r = scale_row(xs, inv);
    proof {
        if deterministic::<T>() {
            assert(r@ =~= rmsnorm_row(xs@));
        }
    }
    r
}

/// The normalisation gradient of a row.
fn rmsnorm_grad_line<T: Float>(g: &[T], x: &[T]) -> (r: Vec<T>)
    requires
        g@.len() == x@.len(),
    ensures
        r@.len() == x@.len(),
        deterministic::<T>() ==> r@ == rmsnorm_grad_row(g@, x@),
{
    let inv = T::from_bits(ONE).over(rms_of_row(x));
    let factor = dot(x, g).times(inv.times(inv).times(inv)).over(T::from_count(x.len()));
    let mut out: Vec<T> = Vec::new();
    let mut i: usize = 0;
    while i < x.len()
        invariant
            i <= x.len(),
            g@.len() == x@.len(),
            out.len() == i,
            deterministic::<T>() ==> forall|k: int|
                0 <= k < i ==> out@[k] == fsub(fmul(g@[k], inv), fmul(x@[k], factor)),
        decreases x.len() - i,
    {
        out.push(g[i].times(inv).minus(x[i].times(factor)));
        i += 1;
    }
    proof {
        if deterministic::<T>() {
            assert(factor == rms_factor(g@, x@));
            assert(out@ =~= rmsnorm_grad_row(g@, x@));
        }
    }
    out
}

/// Row `i` with every later position replaced by `fill`.
fn masked_line<T: Float>(xs: &[T], i: usize, fill: T) -> (r: Vec<T>)
    ensures
        r@ == masked_row(xs@, i as nat, fill),
{
    let mut out: Vec<T> = Vec::new();
    let mut j: usize = 0;
    while j < xs.len()
        invariant
            j <= xs.len(),
            out@ =~= masked_row(xs@, i as nat, fill).take(j as int),
        decreases xs.len() - j,
    {
        if j > i {
            out.push(fill);
        } else {
            out.push(xs[j]);
        }
        j += 1;
    }
    proof {
        assert(out@ =~= masked_row(xs@, i as nat, fill));
    }
    out
}

/// The rotation angle of pair `i` at position `pos`.
fn angle_of<T: Float>(pos: usize, i: usize, head_dim: usize) -> (r: T)
    ensures
        deterministic::<T>() ==> r == rope_angle::<T>(pos, i, head_dim),
{
    let e = T::from_bits(TWO).times(T::from_count(i)).negate().over(T::from_count(head_dim));
    T::from_count(pos).times(T::from_bits(ROPE_BASE).pow(e))
}

/// Each pair of a row rotated by its angle at position `pos`.
pub fn rope_line<T: Float>(xs: &[T], pos: usize) -> (r: Vec<T>)
    requires
        xs@.len() % 2 == 0,
    ensures
        r@.len() == xs@.len(),
        deterministic::<T>() ==> r@ == rope_row(xs@, pos),
{
    let half: usize = xs.len() / 2;
    let mut out: Vec<T> = Vec::new();
    let mut i: usize = 0;
    while i < half
        invariant
            i <= half,
            half == xs@.len() / 2,
            xs@.len() % 2 == 0,
            out.len() == 2 * i,
            deterministic::<T>() ==> out@ == rope_row(xs@, pos).take(2 * i),
        decreases half - i,
    {
        let angle = angle_of::<T>(pos, i, xs.len());
        let c = angle.cos();
        let s = angle.sin();
        let a = xs[2 * i];
        let b = xs[2 * i + 1];
        out.push(a.times(c).minus(b.times(s)));
        out.push(a.times(s).plus(b.times(c)));
        i += 1;
        proof {
            if deterministic::<T>() {
                assert((2 * i - 2) / 2 == i - 1 && (2 * i - 1) / 2 == i - 1);
                assert(out@ =~= rope_row(xs@, pos).take(2 * i));
            }
        }
    }
    proof {
        if deterministic::<T>() {
            assert(out@ =~= rope_row(xs@, pos));
        }
    }
    out
}

/// Each pair of a gradient row rotated back by its angle at position `pos`.
fn rope_grad_line<T: Float>(g: &[T], pos: usize) -> (r: Vec<T>)
    requires
        g@.len() % 2 == 0,
    ensures
        r@.len() == g@.len(),
        deterministic::<T>() ==> r@ == rope_grad_row(g@, pos),
{
    let half: usize = g.len() / 2;
    let mut out: Vec<T> = Vec::new();
    let mut i: usize = 0;
    while i < half
        invariant
            i <= half,
            half == g@.len() / 2,
            g@.len() % 2 == 0,
            out.len() == 2 * i,
            deterministic::<T>() ==> out@ == rope_grad_row(g@, pos).take(2 * i),
        decreases half - i,
    {
        let angle = angle_of::<T>(pos, i, g.len());
        let c = angle.cos();
        let s = angle.sin();
        let a = g[2 * i];
        let b = g[2 * i + 1];
        out.push(a.times(c).plus(b.times(s)));
        out.push(a.negate().times(s).plus(b.times(c)));
        i += 1;
        proof {
            if deterministic::<T>() {
                assert((2 * i - 2) / 2 == i - 1 && (2 * i - 1) / 2 == i - 1);
                assert(out@ =~= rope_grad_row(g@, pos).take(2 * i));
            }
        }
    }
    proof {
        if deterministic::<T>() {
            assert(out@ =~= rope_grad_row(g@, pos));
        }
    }
    out
}

/// The logistic function.
fn logistic<T: Float>(x: T) -> (r: T)
    ensures
        deterministic::<T>() ==> r == sigmoid(x),
{
    T::from_bits(ONE).over(T::from_bits(ONE).plus(x.negate().exp()))
}

/// Every item of a row times its logistic.
pub fn silu_line<T: Float>(xs: &[T]) -> (r: Vec<T>)
    ensures
        r@.len() == xs@.len(),
        deterministic::<T>() ==> r@ == Seq::new(xs@.len(), |k: int| fmul(xs@[k], sigmoid(xs@[k]))),
{
    let mut out: Vec<T> = Vec::new();
    let mut i: usize = 0;
    while i < xs.len()
        invariant
            i <= xs.len(),
            out.len() == i,
            deterministic::<T>() ==> forall|k: int|
                0 <= k < i ==> out@[k] == fmul(xs@[k], sigmoid(xs@[k])),
        decreases xs.len() - i,
    {
        out.push(xs[i].times(logistic(xs[i])));
        i += 1;
    }
    proof {
        if deterministic::<T>() {
            assert(out@ =~= Seq::new(xs@.len(), |k: int| fmul(xs@[k], sigmoid(xs@[k]))));
        }
    }
    out
}

/// The negative log-probability of item `t` under the softmax of a row.
fn loss_of_row<T: Float>(xs: &[T], t: usize) -> (r: T)
    requires
        t < xs@.len(),
    ensures
        deterministic::<T>() ==> r == row_loss(xs@, t),
{
    let top = max_of_row(xs);
    let exps = exps_below(xs, top);
    let log_denom = top.plus(sum(exps.as_slice()).ln());
    proof {
        if deterministic::<T>() {
            assert(exps@ =~= shifted_exps(xs@));
        }
    }
    xs[t].minus(log_denom).negate()
}

/// The row of probabilities with one taken off at the target, scaled by `g`.
fn loss_grad_line<T: Float>(s: &[T], t: usize, g: T) -> (r: Vec<T>)
    ensures
        r@.len() == s@.len(),
        deterministic::<T>() ==> r@ == loss_grad_row(s@, t, g),
{
    let one = T::from_bits(ONE);
    let mut out: Vec<T> = Vec::new();
    let mut j: usize = 0;
    while j < s.len()
        invariant
            j <= s.len(),
            out.len() == j,
            deterministic::<T>() ==> one == fone::<T>(),
            deterministic::<T>() ==> forall|k: int|
                0 <= k < j ==> out@[k] == loss_grad_row(s@, t, g)[k],
        decreases s.len() - j,
    {
        if j == t {
            out.push(s[j].minus(one).times(g));
        } else {
            out.push(s[j].times(g));
        }
        j += 1;
    }
    proof {
        if deterministic::<T>() {
            assert(out@ =~= loss_grad_row(s@, t, g));
        }
    }
    out
}

/// A vector of one item.
pub fn single<T: Float>(x: T) -> (r: Tensor<T>)
    ensures
        r.wf(),
        r@ == (Array { data: seq![x], dims: seq![1usize] }),
{
    let mut data: Vec<T> = Vec::new();
    data.push(x);
    let mut shape: Vec<usize> = Vec::new();
    shape.push(1);
    let r = Tensor { data, shape };
    proof {
        lemma_volume1(r.shape@);
        assert(r@ =~= (Array { data: seq![x], dims: seq![1usize] }));
    }
    r
}

impl<T: Float> Tensor<T> {
    /// The softmax of every row.
    pub fn softmax(&self) -> (r: Self)
        requires
            self.wf(),
            self.shape@.len() == 2,
        ensures
            r.wf(),
            r.shape@ == self.shape@,
            deterministic::<T>() ==> r@ == softmax_of(self@),
    {
        let m: usize = self.shape[0];
        let n: usize = self.shape[1];
        let ghost rows = softmax_rows(self@);
        let mut out: Vec<T> = Vec::new();
        let mut i: usize = 0;
        proof {
            lemma_volume2(self.shape@);
        }
        while i < m
            invariant
                i <= m,
                self.wf(),
                self.shape@.len() == 2,
                m == self.shape@[0],
                n == self.shape@[1],
                rows == softmax_rows(self@),
                out.len() == i * n,
                deterministic::<T>() ==> out@ == flat(i as nat, rows),
            decreases m - i,
        {
            proof {
                lemma_row_end(i as int, m as int, n as int);
            }
            let mut line = softmax_line(self.row(i));
            proof {
                if deterministic::<T>() {
                    assert(line@ == rows(i as nat));
                }
            }
            out.append(&mut line);
            i += 1;
        }
        let r = Tensor { data: out, shape: copy_slice(self.shape.as_slice()) };
        proof {
            if deterministic::<T>() {
                assert(r@ =~= softmax_of(self@));
            }
        }
        r
    }

    /// The gradient of a row-wise softmax whose output was `other`; `self` is the
    /// incoming gradient.
    pub fn softmax_grad(&self, other: &Self) -> (r: Self)
        requires
            self.wf(),
            self.shape@.len() == 2,
            other.wf(),
            other.shape@ == self.shape@,
        ensures
            r.wf(),
            r.shape@ == self.shape@,
            deterministic::<T>() ==> r@ == softmax_grad_of(self@, other@),
    {
        let m: usize = self.shape[0];
        let n: usize = self.shape[1];
        let ghost rows = softmax_grad_rows(self@, other@);
        let mut out: Vec<T> = Vec::new();
        let mut i: usize = 0;
        proof {
            lemma_volume2(self.shape@);
        }
        while i < m
            invariant
                i <= m,
                self.wf(),
                self.shape@.len() == 2,
                other.wf(),
                other.shape@ == self.shape@,
                m == self.shape@[0],
                n == self.shape@[1],
                rows == softmax_grad_rows(self@, other@),
                out.len() == i * n,
                deterministic::<T>() ==> out@ == flat(i as nat, rows),
            decreases m - i,
        {
            proof {
                lemma_row_end(i as int, m as int, n as int);
            }
            let mut line = softmax_grad_line(self.row(i), other.row(i));
            proof {
                if deterministic::<T>() {
                    assert(line@ == rows(i as nat));
                }
            }
            out.append(&mut line);
            i += 1;
        }
        let r = Tensor { data: out, shape: copy_slice(self.shape.as_slice()) };
        proof {
            if deterministic::<T>() {
                assert(r@ =~= softmax_grad_of(self@, other@));
            }
        }
        r
    }

    /// Every row divided by its root mean square.
    pub fn rmsnorm(&self) -> (r: Self)
        requires
            self.wf(),
            self.shape@.len() == 2,
        ensures
            r.wf(),
            r.shape@ == self.shape@,
            deterministic::<T>() ==> r@ == rmsnorm_of(self@),
    {
        let m: usize = self.shape[0];
        let n: usize = self.shape[1];
        let ghost rows = rmsnorm_rows(self@);
        let mut out: Vec<T> = Vec::new();
        let mut i: usize = 0;
        proof {
            lemma_volume2(self.shape@);
        }
        while i < m
            invariant
                i <= m,
                self.wf(),
                self.shape@.len() == 2,
                m == self.shape@[0],
                n == self.shape@[1],
                rows == rmsnorm_rows(self@),
                out.len() == i * n,
                deterministic::<T>() ==> out@ == flat(i as nat, rows),
            decreases m - i,
        {
            proof {
                lemma_row_end(i as int, m as int, n as int);
            }
            let mut line = rmsnorm_line(self.row(i));
            proof {
                if deterministic::<T>() {
                    assert(line@ == rows(i as nat));
                }
            }
            out.append(&mut line);
            i += 1;
        }
        let r = Tensor { data: out, shape: copy_slice(self.shape.as_slice()) };
        proof {
            if deterministic::<T>() {
                assert(r@ =~= rmsnorm_of(self@));
            }
        }
        r
    }

    /// The gradient of the normalisation of `other`; `self` is the incoming gradient.
    pub fn rmsnorm_grad(&self, other: &Self) -> (r: Self)
        requires
            self.wf(),
            self.shape@.len() == 2,
            other.wf(),
            other.shape@ == self.shape@,
        ensures
            r.wf(),
            r.shape@ == self.shape@,
            deterministic::<T>() ==> r@ == rmsnorm_grad_of(self@, other@),
    {
        let m: usize = self.shape[0];
        let n: usize = self.shape[1];
        let ghost rows = rmsnorm_grad_rows(self@, other@);
        let mut out: Vec<T> = Vec::new();
        let mut i: usize = 0;
        proof {
            lemma_volume2(self.shape@);
        }
        while i < m
            invariant
                i <= m,
                self.wf(),
                self.shape@.len() == 2,
                other.wf(),
                other.shape@ == self.shape@,
                m == self.shape@[0],
                n == self.shape@[1],
                rows == rmsnorm_grad_rows(self@, other@),
                out.len() == i * n,
                deterministic::<T>() ==> out@ == flat(i as nat, rows),
            decreases m - i,
        {
            proof {
                lemma_row_end(i as int, m as int, n as int);
            }
            let mut line = rmsnorm_grad_line(self.row(i), other.row(i));
            proof {
                if deterministic::<T>() {
                    assert(line@ == rows(i as nat));
                }
            }
            out.append(&mut line);
            i += 1;
        }
        let r = Tensor { data: out, shape: copy_slice(self.shape.as_slice()) };
        proof {
            if deterministic::<T>() {
                assert(r@ =~= rmsnorm_grad_of(self@, other@));
            }
        }
        r
    }

    /// Negative infinity above the diagonal, unchanged elsewhere.
    pub fn causal_mask(&self) -> (r: Self)
        requires
            self.wf(),
            self.shape@.len() == 2,
        ensures
            r.wf(),
            r.shape@ == self.shape@,
            deterministic::<T>() ==> r@ == causal_mask_of(self@),
    {
        let m: usize = self.shape[0];
        let n: usize = self.shape[1];
        let fill = T::from_bits(NEG_INFINITY);
        let ghost rows = masked_rows(self@, fbits::<T>(NEG_INFINITY));
        let mut out: Vec<T> = Vec::new();
        let mut i: usize = 0;
        proof {
            lemma_volume2(self.shape@);
        }
        while i < m
            invariant
                i <= m,
                self.wf(),
                self.shape@.len() == 2,
                m == self.shape@[0],
                n == self.shape@[1],
                rows == masked_rows(self@, fbits::<T>(NEG_INFINITY)),
                deterministic::<T>() ==> fill == fbits::<T>(NEG_INFINITY),
                out.len() == i * n,
                deterministic::<T>() ==> out@ == flat(i as nat, rows),
            decreases m - i,
        {
            proof {
                lemma_row_end(i as int, m as int, n as int);
            }
            let mut line = masked_line(self.row(i), i, fill);
            proof {
                if deterministic::<T>() {
                    assert(line@ == rows(i as nat));
                }
            }
            out.append(&mut line);
            i += 1;
        }
        let r = Tensor { data: out, shape: copy_slice(self.shape.as_slice()) };
        proof {
            if deterministic::<T>() {
                assert(r@ =~= causal_mask_of(self@));
            }
        }
        r
    }

    /// Zero above the diagonal, unchanged elsewhere.
    pub fn causal_mask_grad(&self) -> (r: Self)
        requires
            self.wf(),
            self.shape@.len() == 2,
        ensures
            r.wf(),
            r.shape@ == self.shape@,
            deterministic::<T>() ==> r@ == causal_mask_grad_of(self@),
    {
        let m: usize = self.shape[0];
        let n: usize = self.shape[1];
        let fill = T::from_bits(ZERO);
        let ghost rows = masked_rows(self@, fzero::<T>());
        let mut out: Vec<T> = Vec::new();
        let mut i: usize = 0;
        proof {
            lemma_volume2(self.shape@);
        }
        while i < m
            invariant
                i <= m,
                self.wf(),
                self.shape@.len() == 2,
                m == self.shape@[0],
                n == self.shape@[1],
                rows == masked_rows(self@, fzero::<T>()),
                deterministic::<T>() ==> fill == fzero::<T>(),
                out.len() == i * n,
                deterministic::<T>() ==> out@ == flat(i as nat, rows),
            decreases m - i,
        {
            proof {
                lemma_row_end(i as int, m as int, n as int);
            }
            let mut line = masked_line(self.row(i), i, fill);
            proof {
                if deterministic::<T>() {
                    assert(line@ == rows(i as nat));
                }
            }
            out.append(&mut line);
            i += 1;
        }
        let r = Tensor { data: out, shape: copy_slice(self.shape.as_slice()) };
        proof {
            if deterministic::<T>() {
                assert(r@ =~= causal_mask_grad_of(self@));
            }
        }
        r
    }

    /// Each row rotated pair by pair by the angles of its position.
    pub fn rope(&self) -> (r: Self)
        requires
            self.wf(),
            self.shape@.len() == 2,
            self.shape@[1] % 2 == 0,
        ensures
            r.wf(),
            r.shape@ == self.shape@,
            deterministic::<T>() ==> r@ == rope_of(self@),
    {
        let m: usize = self.shape[0];
        let n: usize = self.shape[1];
        let ghost rows = rope_rows(self@);
        let mut out: Vec<T> = Vec::new();
        let mut i: usize = 0;
        proof {
            lemma_volume2(self.shape@);
        }
        while i < m
            invariant
                i <= m,
                self.wf(),
                self.shape@.len() == 2,
                self.shape@[1] % 2 == 0,
                m == self.shape@[0],
                n == self.shape@[1],
                rows == rope_rows(self@),
                out.len() == i * n,
                deterministic::<T>() ==> out@ == flat(i as nat, rows),
            decreases m - i,
        {
            proof {
                lemma_row_end(i as int, m as int, n as int);
            }
            let mut line = rope_line(self.row(i), i);
            proof {
                if deterministic::<T>() {
                    assert(line@ == rows(i as nat));
                }
            }
            out.append(&mut line);
            i += 1;
        }
        let r = Tensor { data: out, shape: copy_slice(self.shape.as_slice()) };
        proof {
            if deterministic::<T>() {
                assert(r@ =~= rope_of(self@));
            }
        }
        r
    }

    /// Each row rotated back pair by pair by the angles of its position.
    pub fn rope_grad(&self) -> (r: Self)
        requires
            self.wf(),
            self.shape@.len() == 2,
            self.shape@[1] % 2 == 0,
        ensures
            r.wf(),
            r.shape@ == self.shape@,
            deterministic::<T>() ==> r@ == rope_grad_of(self@),
    {
        let m: usize = self.shape[0];
        let n: usize = self.shape[1];
        let ghost rows = rope_grad_rows(self@);
        let mut out: Vec<T> = Vec::new();
        let mut i: usize = 0;
        proof {
            lemma_volume2(self.shape@);
        }
        while i < m
            invariant
                i <= m,
                self.wf(),
                self.shape@.len() == 2,
                self.shape@[1] % 2 == 0,
                m == self.shape@[0],
                n == self.shape@[1],
                rows == rope_grad_rows(self@),
                out.len() == i * n,
                deterministic::<T>() ==> out@ == flat(i as nat, rows),
            decreases m - i,
        {
            proof {
                lemma_row_end(i as int, m as int, n as int);
            }
            let mut line = rope_grad_line(self.row(i), i);
            proof {
                if deterministic::<T>() {
                    assert(line@ == rows(i as nat));
                }
            }
            out.append(&mut line);
            i += 1;
        }
        let r = Tensor { data: out, shape: copy_slice(self.shape.as_slice()) };
        proof {
            if deterministic::<T>() {
                assert(r@ =~= rope_grad_of(self@));
            }
        }
        r
    }

    /// Every item times its logistic.
    pub fn silu(&self) -> (r: Self)
        requires
            self.wf(),
        ensures
            r.wf(),
            r.shape@ == self.shape@,
            deterministic::<T>() ==> r@ == silu_of(self@),
    {
        let r = Tensor {
            data: silu_line(self.data.as_slice()),
            shape: copy_slice(self.shape.as_slice()),
        };
        proof {
            if deterministic::<T>() {
                assert(r@ =~= silu_of(self@));
            }
        }
        r
    }

    /// The gradient of every item of `other` times its logistic; `self` is the
    /// incoming gradient.
    pub fn silu_grad(&self, other: &Self) -> (r: Self)
        requires
            self.wf(),
            other.wf(),
            other.shape@ == self.shape@,
        ensures
            r.wf(),
            r.shape@ == self.shape@,
            deterministic::<T>() ==> r@ == silu_grad_of(self@, other@),
    {
        let one = T::from_bits(ONE);
        let mut out: Vec<T> = Vec::new();
        let mut i: usize = 0;
        while i < self.data.len()
            invariant
                i <= self.data.len(),
                self.data.len() == other.data.len(),
                out.len() == i,
                deterministic::<T>() ==> one == fone::<T>(),
                deterministic::<T>() ==> forall|k: int|
                    0 <= k < i ==> out@[k] == fmul(self.data@[k], silu_slope(other.data@[k])),
            decreases self.data.len() - i,
        {
            let x = other.data[i];
            let sig = logistic(x);
            out.push(self.data[i].times(sig.times(one.plus(x.times(one.minus(sig))))));
            i += 1;
        }
        let r = Tensor { data: out, shape: copy_slice(self.shape.as_slice()) };
        proof {
            if deterministic::<T>() {
                assert(r@ =~= silu_grad_of(self@, other@));
            }
        }
        r
    }

    /// Every item, or zero where it is not above zero.
    pub fn relu(&self) -> (r: Self)
        requires
            self.wf(),
        ensures
            r.wf(),
            r.shape@ == self.shape@,
            deterministic::<T>() ==> r@ == relu_of(self@),
    {
        let zero = T::from_bits(ZERO);
        let mut out: Vec<T> = Vec::new();
        let mut i: usize = 0;
        while i < self.data.len()
            invariant
                i <= self.data.len(),
                out.len() == i,
                deterministic::<T>() ==> zero == fzero::<T>(),
                deterministic::<T>() ==> forall|k: int|
                    0 <= k < i ==> out@[k] == relu_of(self@).data[k],
            decreases self.data.len() - i,
        {
            if zero.below(self.data[i]) {
                out.push(self.data[i]);
            } else {
                out.push(zero);
            }
            i += 1;
        }
        let r = Tensor { data: out, shape: copy_slice(self.shape.as_slice()) };
        proof {
            if deterministic::<T>() {
                assert(r@ =~= relu_of(self@));
            }
        }
        r
    }

    /// The incoming gradient `self` where `other` was above zero, zero elsewhere.
    pub fn relu_grad(&self, other: &Self) -> (r: Self)
        requires
            self.wf(),
            other.wf(),
            other.shape@ == self.shape@,
        ensures
            r.wf(),
            r.shape@ == self.shape@,
            deterministic::<T>() ==> r@ == relu_grad_of(self@, other@),
    {
        let zero = T::from_bits(ZERO);
        let mut out: Vec<T> = Vec::new();
        let mut i: usize = 0;
        while i < self.data.len()
            invariant
                i <= self.data.len(),
                self.data.len() == other.data.len(),
                out.len() == i,
                deterministic::<T>() ==> zero == fzero::<T>(),
                deterministic::<T>() ==> forall|k: int|
                    0 <= k < i ==> out@[k] == relu_grad_of(self@, other@).data[k],
            decreases self.data.len() - i,
        {
            if zero.below(other.data[i]) {
                out.push(self.data[i]);
            } else {
                out.push(zero);
            }
            i += 1;
        }
        let r = Tensor { data: out, shape: copy_slice(self.shape.as_slice()) };
        proof {
            if deterministic::<T>() {
                assert(r@ =~= relu_grad_of(self@, other@));
            }
        }
        r
    }

    /// The mean of all items, as a vector of one.
    pub fn mean(&self) -> (r: Self)
        ensures
            r.wf(),
            r.shape@ == seq![1usize],
            deterministic::<T>() ==> r@ == mean_of(self@),
    {
        let total = sum(self.data.as_slice());
        single(total.over(T::from_count(self.data.len())))
    }

    /// The gradient of the mean of `other`; `self` is the incoming gradient.
    pub fn mean_grad(&self, other: &Self) -> (r: Self)
        requires
            self.wf(),
            self.shape@ == seq![1usize],
            other.wf(),
        ensures
            r.wf(),
            r.shape@ == other.shape@,
            deterministic::<T>() ==> r@ == mean_grad_of(self@, other@),
    {
        proof {
            lemma_volume1(self.shape@);
        }
        let inv = T::from_bits(ONE).over(T::from_count(other.data.len()));
        let share = self.data[0].times(inv);
        let r = Tensor {
            data: repeat(share, other.data.len()),
            shape: copy_slice(other.shape.as_slice()),
        };
        proof {
            if deterministic::<T>() {
                assert(r@ =~= mean_grad_of(self@, other@));
            }
        }
        r
    }

    /// The rows that the ids pick, in their order.
    pub fn embed(&self, ids: &[usize]) -> (r: Self)
        requires
            self.wf(),
            self.shape@.len() == 2,
            ids_below(ids@, self.shape@[0]),
            ids@.len() * self.shape@[1] <= usize::MAX,
        ensures
            r.wf(),
            r@ == embed_of(self@, ids@),
    {
        let n: usize = self.shape[1];
        let ghost rows = picked_rows(self@, ids@);
        let mut out: Vec<T> = Vec::new();
        let mut i: usize = 0;
        while i < ids.len()
            invariant
                i <= ids.len(),
                self.wf(),
                self.shape@.len() == 2,
                n == self.shape@[1],
                ids_below(ids@, self.shape@[0]),
                ids@.len() * n <= usize::MAX,
                rows == picked_rows(self@, ids@),
                out.len() == i * n,
                out@ == flat(i as nat, rows),
            decreases ids.len() - i,
        {
            proof {
                lemma_row_end(i as int, ids@.len() as int, n as int);
            }
            let mut line = copy_slice(self.row(ids[i]));
            proof {
                assert(line@ == rows(i as nat));
            }
            out.append(&mut line);
            i += 1;
        }
        let mut shape: Vec<usize> = Vec::new();
        shape.push(ids.len());
        shape.push(n);
        let r = Tensor { data: out, shape };
        proof {
            lemma_volume2(r.shape@);
            assert(r@ =~= embed_of(self@, ids@));
        }
        r
    }

    /// The gradient of a row lookup in `other`: every row of the incoming
    /// gradient `self` added to the row it was picked from.
    pub fn embed_grad(&self, other: &Self, ids: &[usize]) -> (r: Self)
        requires
            self.wf(),
            other.wf(),
            other.shape@.len() == 2,
            self.shape@.len() == 2,
            self.shape@[0] == ids@.len(),
            self.shape@[1] == other.shape@[1],
            ids_below(ids@, other.shape@[0]),
        ensures
            r.wf(),
            r.shape@ == other.shape@,
            deterministic::<T>() ==> r@ == embed_grad_of(self@, other@, ids@),
    {
        let n: usize = other.shape[1];
        let size: usize = other.data.len();
        let mut out: Vec<T> = repeat(T::from_bits(ZERO), size);
        let mut i: usize = 0;
        proof {
            lemma_volume2(other.shape@);
            lemma_volume2(self.shape@);
            if deterministic::<T>() {
                assert(out@ =~= scattered(size as nat, n, ids@, self.data@, 0));
            }
        }
        while i < ids.len()
            invariant
                i <= ids.len(),
                n == other.shape@[1],
                other.shape@.len() == 2,
                size == other.data@.len(),
                other.data@.len() == other.shape@[0] * n,
                self.data@.len() == ids@.len() * n,
                ids_below(ids@, other.shape@[0]),
                out@.len() == size,
                deterministic::<T>() ==> out@ == scattered(
                    size as nat,
                    n,
                    ids@,
                    self.data@,
                    i as nat,
                ),
            decreases ids.len() - i,
        {
            let id: usize = ids[i];
            let ghost before = out@;
            proof {
                lemma_row_end(i as int, ids@.len() as int, n as int);
                lemma_row_end(id as int, other.shape@[0] as int, n as int);
                assert(self.data@.len() == self.data.len());
            }
            let mut j: usize = 0;
            while j < n
                invariant
                    j <= n,
                    id * n + n <= size,
                    i * n + n <= self.data.len(),
                    out@.len() == size,
                    before.len() == size,
                    deterministic::<T>() ==> forall|k: int|
                        0 <= k < size ==> out@[k] == if id * n <= k < id * n + j {
                            fadd(before[k], self.data@[i * n + (k - id * n)])
                        } else {
                            before[k]
                        },
                decreases n - j,
            {
                let v = out[id * n + j].plus(self.data[i * n + j]);
                out.set(id * n + j, v);
                j += 1;
            }
            i += 1;
            proof {
                if deterministic::<T>() {
                    assert(out@ =~= scattered(size as nat, n, ids@, self.data@, i as nat));
                }
            }
        }
        let r = Tensor { data: out, shape: copy_slice(other.shape.as_slice()) };
        proof {
            if deterministic::<T>() {
                assert(r@ =~= embed_grad_of(self@, other@, ids@));
            }
        }
        r
    }

    /// The mean over the rows of the negative log-probability of the target.
    pub fn loss(&self, targets: &[usize]) -> (r: T)
        requires
            self.wf(),
            self.shape@.len() == 2,
            targets@.len() == self.shape@[0],
            ids_below(targets@, self.shape@[1]),
        ensures
            deterministic::<T>() ==> r == mean_loss(self@, targets@),
    {
        let m: usize = self.shape[0];
        let mut losses: Vec<T> = Vec::new();
        let mut i: usize = 0;
        while i < m
            invariant
                i <= m,
                self.wf(),
                self.shape@.len() == 2,
                m == self.shape@[0],
                targets@.len() == m,
                ids_below(targets@, self.shape@[1]),
                losses.len() == i,
                deterministic::<T>() ==> forall|k: int|
                    0 <= k < i ==> losses@[k] == row_loss(self@.row(k as nat), targets@[k]),
            decreases m - i,
        {
            losses.push(loss_of_row(self.row(i), targets[i]));
            i += 1;
        }
        proof {
            if deterministic::<T>() {
                assert(losses@ =~= Seq::new(
                    self.shape@[0] as nat,
                    |i: int| row_loss(self@.row(i as nat), targets@[i]),
                ));
            }
        }
        sum(losses.as_slice()).over(T::from_count(m))
    }

    /// The probabilities `self` with one taken off at each target, all scaled by `g`.
    pub fn loss_grad(&self, targets: &[usize], g: T) -> (r: Self)
        requires
            self.wf(),
            self.shape@.len() == 2,
            targets@.len() == self.shape@[0],
        ensures
            r.wf(),
            r.shape@ == self.shape@,
            deterministic::<T>() ==> r@ == matrix(
                self.shape@[0],
                self.shape@[1],
                loss_grad_rows(self@, targets@, g),
            ),
    {
        let m: usize = self.shape[0];
        let n: usize = self.shape[1];
        let ghost rows = loss_grad_rows(self@, targets@, g);
        let mut out: Vec<T> = Vec::new();
        let mut i: usize = 0;
        proof {
            lemma_volume2(self.shape@);
        }
        while i < m
            invariant
                i <= m,
                self.wf(),
                self.shape@.len() == 2,
                targets@.len() == self.shape@[0],
                m == self.shape@[0],
                n == self.shape@[1],
                rows == loss_grad_rows(self@, targets@, g),
                out.len() == i * n,
                deterministic::<T>() ==> out@ == flat(i as nat, rows),
            decreases m - i,
        {
            proof {
                lemma_row_end(i as int, m as int, n as int);
            }
            let mut line = loss_grad_line(self.row(i), targets[i], g);
            proof {
                if deterministic::<T>() {
                    assert(line@ == rows(i as nat));
                }
            }
            out.append(&mut line);
            i += 1;
        }
        let r = Tensor { data: out, shape: copy_slice(self.shape.as_slice()) };
        proof {
            if deterministic::<T>() {
                assert(r@ =~= matrix(
                self.shape@[0],
                self.shape@[1],
                loss_grad_rows(self@, targets@, g),
            ));
            }
        }
        r
    }
}

} // verus!
