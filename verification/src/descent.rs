//! What a step of training does to the weights: the moments, the decay, the clipping and
//! the learning rate, in arithmetic without rounding.
use crate::exact::{divisor, exact_div, exact_share, ring_back, ring_spreads, shares_out};
use crate::float::{
    fadd, fbits, fcos, fcount, fdiv, flt, fmul, fneg, fone, fpow, fsqrt, fsub, fsum, fzero, Float,
};
use crate::identities::{
    lemma_sum_scaled, ring, ring_absorb, ring_add, ring_cancel, ring_cross, ring_mul, ring_neg,
    ring_product, ring_spread, ring_sub, ring_sum, ring_zero, squares_back,
};
use crate::layout::items;
use crate::model::{descended_of, Model};
use crate::optim::{norm_of, scheduled, square_sum, step_at, warm, AdamW};
use crate::tensor::Array;
use crate::train::{clipped_of, optimised};
use vstd::prelude::*;

verus! {

/// Item `i` of weight `k`.
pub open spec fn weight_at<T: Float>(m: Model<T>, k: int, i: int) -> T {
    items(m.parts())[k].data@[i]
}

/// Powers grow by their base from one count to the next.
#[verifier::opaque]
pub open spec fn powers_grow<T: Float>() -> bool {
    forall|b: T, t: usize|
        t < usize::MAX ==> #[trigger] fmul(fpow(b, fcount::<T>(t)), b) == fpow(
            b,
            fcount::<T>((t + 1) as usize),
        )
}

/// The power of the next count.
proof fn exact_power<T: Float>(b: T, t: usize)
    requires
        powers_grow::<T>(),
        t < usize::MAX,
    ensures
        fpow(b, fcount::<T>((t + 1) as usize)) == fmul(fpow(b, fcount::<T>(t)), b),
{
    reveal(powers_grow);
}

/// A step brings both moments closer to the gradient and to its square: what is missing
/// shrinks by the moment's own factor.
pub proof fn law_moments_close_in<T: Float>(
    a: AdamW<T>,
    am: Model<T>,
    b: AdamW<T>,
    bm: Model<T>,
    g: T,
    k: int,
    i: int,
)
    requires
        ring::<T>(),
        step_at(a, am, b, bm, g, k, i),
    ensures
        fsub(b.state.m@[k].data@[i], g) == fmul(a.beta1, fsub(a.state.m@[k].data@[i], g)),
        fsub(b.state.v@[k].data@[i], fmul(g, g)) == fmul(
            a.beta2,
            fsub(a.state.v@[k].data@[i], fmul(g, g)),
        ),
{
    lemma_closer(a.state.m@[k].data@[i], g, a.beta1);
    lemma_closer(a.state.v@[k].data@[i], fmul(g, g), a.beta2);
}

/// A mean of an old value and a new one, less the new one.
proof fn lemma_closer<T: Float>(m: T, g: T, b: T)
    requires
        ring::<T>(),
    ensures
        fsub(fadd(fmul(b, m), fmul(fsub(fone::<T>(), b), g)), g) == fmul(b, fsub(m, g)),
{
    let one = fone::<T>();
    let (p, q) = (fmul(b, m), fmul(b, g));
    // (1 - b) g is g - b g.
    ring_sub(one, b);
    ring_spread(one, fneg(b), g);
    ring_mul(one, g);
    ring_product(g, one, one);
    ring_neg(b, g);
    assert(fmul(fsub(one, b), g) == fadd(g, fneg(q)));
    // p + (g - q) - g is p - q.
    ring_add(g, fneg(q));
    ring_sum(p, fneg(q), g);
    ring_back(fadd(p, fneg(q)), g);
    ring_sub(m, g);
    ring_spread(m, fneg(g), b);
    ring_neg(g, b);
    ring_mul(g, b);
    ring_mul(fneg(g), b);
    assert(fmul(b, fneg(g)) == fneg(q));
}

/// A step moves a weight against its mean gradient over the root of its mean square, both
/// made up for having started at zero, and by its decay, which the moments do not see.
pub proof fn law_step_follows_corrected_mean<T: Float>(
    a: AdamW<T>,
    am: Model<T>,
    b: AdamW<T>,
    bm: Model<T>,
    g: T,
    k: int,
    i: int,
    mean: T,
    square: T,
)
    requires
        ring::<T>(),
        step_at(a, am, b, bm, g, k, i),
        a.state.step_count < u32::MAX,
        ({
            let t = fcount::<T>((a.state.step_count + 1) as usize);
            let w1 = fsub(fone::<T>(), fpow(a.beta1, t));
            let w2 = fsub(fone::<T>(), fpow(a.beta2, t));
            &&& divisor(w1)
            &&& divisor(w2)
            &&& fmul(w1, mean) == b.state.m@[k].data@[i]
            &&& fmul(w2, square) == b.state.v@[k].data@[i]
        }),
    ensures
        weight_at(bm, k, i) == fsub(
            weight_at(am, k, i),
            fmul(
                a.lr,
                fadd(
                    fdiv(mean, fadd(fsqrt(square), a.eps)),
                    fmul(a.weight_decay, weight_at(am, k, i)),
                ),
            ),
        ),
{
    let t = fcount::<T>((a.state.step_count + 1) as usize);
    exact_div(mean, fsub(fone::<T>(), fpow(a.beta1, t)));
    exact_div(square, fsub(fone::<T>(), fpow(a.beta2, t)));
}

/// Where a weight has had no gradient and gets none, a step only shrinks it: by the
/// learning rate times the decay.
pub proof fn law_idle_weight_decays<T: Float>(
    a: AdamW<T>,
    am: Model<T>,
    b: AdamW<T>,
    bm: Model<T>,
    k: int,
    i: int,
)
    requires
        ring::<T>(),
        step_at(a, am, b, bm, fzero::<T>(), k, i),
        a.state.m@[k].data@[i] == fzero::<T>(),
        a.state.v@[k].data@[i] == fzero::<T>(),
        a.state.step_count < u32::MAX,
        divisor(warm(a.beta1, (a.state.step_count + 1) as u32)),
        divisor(fadd(fsqrt(fdiv(fzero::<T>(), warm(a.beta2, (a.state.step_count + 1) as u32))), a.eps)),
    ensures
        b.state.m@[k].data@[i] == fzero::<T>(),
        b.state.v@[k].data@[i] == fzero::<T>(),
        fsub(weight_at(am, k, i), weight_at(bm, k, i)) == fmul(
            fmul(a.lr, a.weight_decay),
            weight_at(am, k, i),
        ),
{
    let z = fzero::<T>();
    let w = weight_at(am, k, i);
    lemma_rests(a.beta1);
    lemma_rests(a.beta2);
    ring_absorb(z);
    let w1 = warm(a.beta1, (a.state.step_count + 1) as u32);
    let d = fadd(fsqrt(fdiv(z, warm(a.beta2, (a.state.step_count + 1) as u32))), a.eps);
    exact_div(z, w1);
    ring_absorb(w1);
    ring_mul(w1, z);
    exact_div(z, d);
    ring_absorb(d);
    ring_mul(d, z);
    ring_zero(fmul(a.weight_decay, w));
    ring_add(z, fmul(a.weight_decay, w));
    ring_product(a.lr, a.weight_decay, w);
    lemma_taken(w, fmul(a.lr, fmul(a.weight_decay, w)));
}

/// Moments of zero stay at zero without a gradient.
proof fn lemma_rests<T: Float>(b: T)
    requires
        ring::<T>(),
    ensures
        fadd(fmul(b, fzero::<T>()), fmul(fsub(fone::<T>(), b), fzero::<T>())) == fzero::<T>(),
{
    let z = fzero::<T>();
    ring_absorb(b);
    ring_mul(b, z);
    ring_absorb(fsub(fone::<T>(), b));
    ring_mul(fsub(fone::<T>(), b), z);
    ring_zero(z);
}

/// A number less what is left of it after something was taken away is what was taken.
proof fn lemma_taken<T: Float>(a: T, b: T)
    requires
        ring::<T>(),
    ensures
        fsub(a, fsub(a, b)) == b,
{
    let c = fsub(a, b);
    ring_back(a, b);
    ring_back(a, c);
    ring_add(c, b);
    ring_cancel(fsub(a, c), b, c);
    ring_add(b, c);
}

/// Steps `t` and `t + 1` of a run of the optimiser on one weight with one gradient.
pub open spec fn steady_step<T: Float>(
    os: Seq<AdamW<T>>,
    ms: Seq<Model<T>>,
    g: T,
    k: int,
    i: int,
    t: int,
) -> bool {
    &&& step_at(os[t], ms[t], os[t + 1], ms[t + 1], g, k, i)
    &&& os[t].state.step_count == t
    &&& os[t].beta1 == os[0].beta1
    &&& os[t].beta2 == os[0].beta2
}

/// Under a steady gradient every step of a fresh optimiser is as long as the first: the
/// moments' start at zero is made up for at once and for good.
pub proof fn law_steady_gradient_steps_evenly<T: Float>(
    os: Seq<AdamW<T>>,
    ms: Seq<Model<T>>,
    g: T,
    k: int,
    i: int,
    n: nat,
)
    requires
        ring::<T>(),
        powers_grow::<T>(),
        fpow(os[0].beta1, fcount::<T>(0)) == fone::<T>(),
        fpow(os[0].beta2, fcount::<T>(0)) == fone::<T>(),
        n + 1 < os.len(),
        n + 1 < ms.len(),
        n < u32::MAX,
        os[0].state.m@[k].data@[i] == fzero::<T>(),
        os[0].state.v@[k].data@[i] == fzero::<T>(),
        forall|t: int| 0 <= t <= n ==> #[trigger] steady_step(os, ms, g, k, i, t),
        divisor(fsub(fone::<T>(), fpow(os[0].beta1, fcount::<T>((n + 1) as usize)))),
        divisor(fsub(fone::<T>(), fpow(os[0].beta2, fcount::<T>((n + 1) as usize)))),
    ensures
        weight_at(ms[n as int + 1], k, i) == fsub(
            weight_at(ms[n as int], k, i),
            fmul(
                os[n as int].lr,
                fadd(
                    fdiv(g, fadd(fsqrt(fmul(g, g)), os[n as int].eps)),
                    fmul(os[n as int].weight_decay, weight_at(ms[n as int], k, i)),
                ),
            ),
        ),
{
    lemma_steady(os, ms, g, k, i, n + 1);
    assert(steady_step(os, ms, g, k, i, n as int));
    let t = fcount::<T>((n + 1) as usize);
    law_step_follows_corrected_mean(
        os[n as int],
        ms[n as int],
        os[n as int + 1],
        ms[n as int + 1],
        g,
        k,
        i,
        g,
        fmul(g, g),
    );
}

/// The moments of a steady gradient after `n` steps.
proof fn lemma_steady<T: Float>(
    os: Seq<AdamW<T>>,
    ms: Seq<Model<T>>,
    g: T,
    k: int,
    i: int,
    n: nat,
)
    requires
        ring::<T>(),
        powers_grow::<T>(),
        fpow(os[0].beta1, fcount::<T>(0)) == fone::<T>(),
        fpow(os[0].beta2, fcount::<T>(0)) == fone::<T>(),
        n < os.len(),
        n <= u32::MAX,
        os[0].state.m@[k].data@[i] == fzero::<T>(),
        os[0].state.v@[k].data@[i] == fzero::<T>(),
        forall|t: int| 0 <= t < n ==> #[trigger] steady_step(os, ms, g, k, i, t),
    ensures
        os[n as int].state.m@[k].data@[i] == fmul(
            fsub(fone::<T>(), fpow(os[0].beta1, fcount::<T>(n as usize))),
            g,
        ),
        os[n as int].state.v@[k].data@[i] == fmul(
            fsub(fone::<T>(), fpow(os[0].beta2, fcount::<T>(n as usize))),
            fmul(g, g),
        ),
    decreases n,
{
    if n == 0 {
        let one = fone::<T>();
        ring_sub(one, one);
        ring_zero(one);
        ring_absorb(g);
        ring_absorb(fmul(g, g));
    } else {
        lemma_steady(os, ms, g, k, i, (n - 1) as nat);
        assert(steady_step(os, ms, g, k, i, n - 1));
        lemma_next_mean(os[0].beta1, g, (n - 1) as usize);
        lemma_next_mean(os[0].beta2, fmul(g, g), (n - 1) as usize);
    }
}

/// A mean of a steady value after one more step.
proof fn lemma_next_mean<T: Float>(b: T, g: T, t: usize)
    requires
        ring::<T>(),
        powers_grow::<T>(),
        t < usize::MAX,
    ensures
        fadd(
            fmul(b, fmul(fsub(fone::<T>(), fpow(b, fcount::<T>(t))), g)),
            fmul(fsub(fone::<T>(), b), g),
        ) == fmul(fsub(fone::<T>(), fpow(b, fcount::<T>((t + 1) as usize))), g),
{
    let one = fone::<T>();
    let p = fpow(b, fcount::<T>(t));
    exact_power(b, t);
    // b (1 - p) + (1 - b) is 1 - b p.
    let c = fmul(b, fsub(one, p));
    ring_product(b, fsub(one, p), g);
    ring_spread(c, fsub(one, b), g);
    ring_sub(one, p);
    ring_spread(one, fneg(p), b);
    ring_product(b, one, one);
    ring_neg(p, b);
    ring_mul(fneg(p), b);
    let q = fmul(p, b);
    assert(c == fadd(b, fneg(q)));
    ring_sub(one, b);
    ring_add(one, fneg(b));
    ring_add(b, fneg(q));
    ring_sum(fneg(q), b, fadd(fneg(b), one));
    ring_sum(b, fneg(b), one);
    ring_zero(b);
    ring_zero(one);
    ring_add(fzero::<T>(), one);
    ring_add(fneg(q), one);
    ring_sub(one, q);
}

/// A weight moved against its gradient is brought back by what it was moved by.
pub proof fn law_descent_is_undone<T: Float>(p: Array<T>, g: Array<T>, lr: T, k: int)
    requires
        ring::<T>(),
        0 <= k < p.data.len(),
        p.data.len() == g.data.len(),
    ensures
        fadd(descended_of(p, g, lr).data[k], fmul(lr, g.data[k])) == p.data[k],
        descended_of(p, g, lr).dims == p.dims,
{
    ring_back(p.data[k], fmul(lr, g.data[k]));
}

/// The square of the norm takes in every tensor: that of some tensors and others is the
/// sum of both, and that of one is the sum of its squares.
pub proof fn law_norm_takes_in_everything<T: Float>(s: Seq<Array<T>>, a: Array<T>)
    requires
        ring::<T>(),
        squares_back(square_sum(s, s.len())),
        squares_back(square_sum(s.push(a), (s.len() + 1) as nat)),
        squares_back(fzero::<T>()),
    ensures
        fmul(norm_of(s.push(a)), norm_of(s.push(a))) == fadd(
            fmul(norm_of(s), norm_of(s)),
            fsum(Seq::new(a.data.len(), |i: int| fmul(a.data[i], a.data[i]))),
        ),
        fmul(norm_of(Seq::<Array<T>>::empty()), norm_of(Seq::<Array<T>>::empty())) == fzero::<T>(),
{
    let t = s.push(a);
    lemma_squares_alone(t, s, s.len());
    assert(t[t.len() - 1] == a);
}

/// The squares of the first tensors do not depend on the others.
proof fn lemma_squares_alone<T: Float>(s: Seq<Array<T>>, t: Seq<Array<T>>, n: nat)
    requires
        n <= s.len(),
        n <= t.len(),
        forall|k: int| 0 <= k < n ==> #[trigger] s[k] == t[k],
    ensures
        square_sum(s, n) == square_sum(t, n),
    decreases n,
{
    if n > 0 {
        lemma_squares_alone(s, t, (n - 1) as nat);
        assert(s[n - 1] == t[n - 1]);
    }
}

/// All the gradients after clipping.
pub open spec fn all_clipped<T: Float>(s: Seq<Array<T>>, limit: T) -> Seq<Array<T>> {
    Seq::new(s.len(), |k: int| clipped_of(s, limit, k))
}

/// Gradients whose norm is not above the limit are left as they are.
pub proof fn law_clipping_spares_small_gradients<T: Float>(s: Seq<Array<T>>, limit: T)
    requires
        !flt(limit, norm_of(s)),
    ensures
        all_clipped(s, limit) == s,
{
    assert(all_clipped(s, limit) =~= s);
}

/// Clipping scales all gradients alike: it keeps the direction of them all together.
pub proof fn law_clipping_keeps_direction<T: Float>(
    s: Seq<Array<T>>,
    limit: T,
    k: int,
    i: int,
    l: int,
    j: int,
)
    requires
        ring::<T>(),
        0 <= k < s.len(),
        0 <= l < s.len(),
        0 <= i < s[k].data.len(),
        0 <= j < s[l].data.len(),
    ensures
        fmul(clipped_of(s, limit, k).data[i], s[l].data[j]) == fmul(
            clipped_of(s, limit, l).data[j],
            s[k].data[i],
        ),
{
    let (a, b) = (s[k].data[i], s[l].data[j]);
    let f = crate::optim::clip_factor(norm_of(s), limit);
    ring_mul(a, b);
    ring_mul(a, f);
    ring_product(f, a, b);
    ring_mul(b, f);
    ring_product(f, b, a);
}

/// Clipping brings the norm down to the limit, but for the millionth that the norm is
/// raised by before the division: the two norms are in the ratio of the limit and that.
pub proof fn law_clipping_brings_norm_to_limit<T: Float>(s: Seq<Array<T>>, limit: T)
    requires
        ring::<T>(),
        flt(limit, norm_of(s)),
        divisor(fadd(norm_of(s), fbits::<T>(0x3586_37BD))),
    ensures
        ({
            let raised = fadd(norm_of(s), fbits::<T>(0x3586_37BD));
            fmul(fmul(raised, raised), square_sum(all_clipped(s, limit), s.len())) == fmul(
                fmul(limit, limit),
                square_sum(s, s.len()),
            )
        }),
{
    let d = fadd(norm_of(s), fbits::<T>(0x3586_37BD));
    let f = crate::optim::clip_factor(norm_of(s), limit);
    exact_div(limit, d);
    lemma_squares_scaled(s, all_clipped(s, limit), f, s.len());
    let q = square_sum(s, s.len());
    ring_mul(q, fmul(f, f));
    ring_product(fmul(d, d), fmul(f, f), q);
    ring_cross(d, d, f, f);
}

/// The squares of scaled tensors.
proof fn lemma_squares_scaled<T: Float>(s: Seq<Array<T>>, t: Seq<Array<T>>, f: T, n: nat)
    requires
        ring::<T>(),
        n <= s.len(),
        n <= t.len(),
        forall|k: int| 0 <= k < n ==> #[trigger] t[k] == crate::tensor::scale_of(s[k], f),
    ensures
        square_sum(t, n) == fmul(square_sum(s, n), fmul(f, f)),
    decreases n,
{
    let c = fmul(f, f);
    if n == 0 {
        ring_absorb(c);
    } else {
        lemma_squares_scaled(s, t, f, (n - 1) as nat);
        let (a, b) = (s[n - 1].data, t[n - 1].data);
        assert(t[n - 1] == crate::tensor::scale_of(s[n - 1], f));
        let x = Seq::new(a.len(), |i: int| fmul(a[i], a[i]));
        let y = Seq::new(b.len(), |i: int| fmul(b[i], b[i]));
        ring_spreads::<T>();
        assert forall|i: int| 0 <= i < y.len() implies #[trigger] y[i] == fmul(x[i], c) by {
            ring_cross(a[i], f, a[i], f);
            ring_cross(a[i], a[i], f, f);
        }
        assert(y =~= Seq::new(x.len(), |i: int| fmul(x[i], c)));
        lemma_sum_scaled(y, x, c);
        ring_spread(square_sum(s, (n - 1) as nat), fsum(x), c);
    }
}

/// What the optimiser takes in is clipped: the moments close in on the gradient itself where
/// the norm of all is not above the limit, and else on the gradient times the limit over the
/// norm raised by a millionth.
pub proof fn law_optimiser_takes_clipped_gradients<T: Float>(
    m0: Model<T>,
    o0: AdamW<T>,
    s: Seq<Array<T>>,
    limit: T,
    m1: Model<T>,
    o1: AdamW<T>,
    k: int,
    i: int,
    g: T,
)
    requires
        ring::<T>(),
        optimised(m0, o0, s, limit, m1, o1),
        0 <= k < s.len(),
        0 <= i < s[k].data.len(),
        divisor(fadd(norm_of(s), fbits::<T>(0x3586_37BD))),
        if flt(limit, norm_of(s)) {
            fmul(fadd(norm_of(s), fbits::<T>(0x3586_37BD)), g) == fmul(s[k].data[i], limit)
        } else {
            g == s[k].data[i]
        },
    ensures
        fsub(o1.state.m@[k].data@[i], g) == fmul(o0.beta1, fsub(o0.state.m@[k].data@[i], g)),
        fsub(o1.state.v@[k].data@[i], fmul(g, g)) == fmul(
            o0.beta2,
            fsub(o0.state.v@[k].data@[i], fmul(g, g)),
        ),
{
    let d = fadd(norm_of(s), fbits::<T>(0x3586_37BD));
    let a = s[k].data[i];
    let c = clipped_of(s, limit, k).data[i];
    if flt(limit, norm_of(s)) {
        let f = fdiv(limit, d);
        exact_div(limit, d);
        exact_div(g, d);
        exact_div(fmul(a, f), d);
        ring_product(d, a, f);
        ring_mul(d, a);
        ring_product(a, d, f);
        assert(fmul(d, fmul(a, f)) == fmul(d, g));
        assert(c == g);
    }
    assert(step_at(o0, m0, o1, m1, c, k, i));
    law_moments_close_in(o0, m0, o1, m1, c, k, i);
}

/// The learning rate rises in proportion to the step until the warm-up ends.
pub proof fn law_rate_rises_evenly<T: Float>(
    step: usize,
    warmup: usize,
    total: usize,
    peak: T,
    floor: T,
)
    requires
        shares_out::<T>(),
        step < warmup,
    ensures
        fmul(fcount::<T>(warmup), scheduled(step, warmup, total, peak, floor)) == fmul(
            peak,
            fcount::<T>(step),
        ),
{
    exact_share(fmul(peak, fcount::<T>(step)), warmup);
}

/// After the warm-up, what the learning rate has above its floor is the square of a cosine
/// times what the peak has: that of half the angle, which goes evenly from nothing to half
/// a turn.
pub proof fn law_rate_falls_as_squared_cosine<T: Float>(
    k: usize,
    warmup: usize,
    total: usize,
    peak: T,
    floor: T,
    y: T,
)
    requires
        ring::<T>(),
        shares_out::<T>(),
        warmup + k < total,
        fmul(fcount::<T>((total - warmup) as usize), fadd(y, y)) == fmul(
            fbits::<T>(0x4049_0FDB),
            fcount::<T>(k),
        ),
        fadd(fbits::<T>(0x3F00_0000), fbits::<T>(0x3F00_0000)) == fone::<T>(),
        fadd(fone::<T>(), fcos(fadd(y, y))) == fadd(
            fmul(fcos(y), fcos(y)),
            fmul(fcos(y), fcos(y)),
        ),
    ensures
        scheduled((warmup + k) as usize, warmup, total, peak, floor) == fadd(
            floor,
            fmul(fsub(peak, floor), fmul(fcos(y), fcos(y))),
        ),
{
    let n = (total - warmup) as usize;
    let h = fbits::<T>(0x3F00_0000);
    let pi = fbits::<T>(0x4049_0FDB);
    let c = fcount::<T>(n);
    let x = fdiv(fcount::<T>(k), c);
    // pi k / n is y + y.
    exact_share(fcount::<T>(k), n);
    exact_share(fmul(pi, x), n);
    exact_share(fadd(y, y), n);
    ring_product(c, pi, x);
    ring_mul(c, pi);
    ring_product(pi, c, x);
    assert(fmul(c, fmul(pi, x)) == fmul(pi, fcount::<T>(k)));
    assert(fmul(pi, x) == fadd(y, y));
    // Half of twice the square.
    let d = fsub(peak, floor);
    let q = fmul(fcos(y), fcos(y));
    ring_mul(h, d);
    ring_product(d, h, fadd(q, q));
    ring_spread(q, q, h);
    ring_spread(h, h, q);
    ring_mul(h, q);
    ring_mul(fone::<T>(), q);
    ring_product(q, h, h);
    assert(fmul(h, fadd(q, q)) == q);
}

/// The learning rate is the peak where the warm-up ends.
pub proof fn law_rate_peaks_after_warmup<T: Float>(warmup: usize, total: usize, peak: T, floor: T)
    requires
        ring::<T>(),
        shares_out::<T>(),
        fcount::<T>(0) == fzero::<T>(),
        warmup < total,
        fcos(fzero::<T>()) == fone::<T>(),
        fadd(fbits::<T>(0x3F00_0000), fbits::<T>(0x3F00_0000)) == fone::<T>(),
    ensures
        scheduled(warmup, warmup, total, peak, floor) == peak,
{
    let z = fzero::<T>();
    let one = fone::<T>();
    let c = fcount::<T>((total - warmup) as usize);
    ring_zero(z);
    ring_absorb(c);
    ring_mul(c, z);
    ring_absorb(fbits::<T>(0x4049_0FDB));
    ring_mul(fbits::<T>(0x4049_0FDB), z);
    ring_product(one, one, one);
    law_rate_falls_as_squared_cosine(0, warmup, total, peak, floor, z);
    ring_product(fsub(peak, floor), one, one);
    ring_back(peak, floor);
}

} // verus!
