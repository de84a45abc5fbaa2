//! The AdamW optimiser, the clipping of gradients and the learning-rate schedule.
use crate::float::{
    deterministic, fadd, fbits, fcos, fcount, fdiv, flt, fmul, fone, fpow, fsqrt, fsub, fsum, fzero,
    sum, Float, ONE, ZERO,
};
use crate::layout::{items, same_form};
use crate::model::Model;
use crate::tensor::{copy_slice, Array, Tensor};
use vstd::prelude::*;

verus! {

/// The bit pattern of 0.00000001, the guard of the division by the root.
pub const ADAM_EPSILON: u32 = 0x322B_CC77;

/// The bit pattern of 0.9.
pub const BETA1: u32 = 0x3F66_6666;

/// The bit pattern of 0.999.
pub const BETA2: u32 = 0x3F7F_BE77;

/// The bit pattern of 0.01.
pub const WEIGHT_DECAY: u32 = 0x3C23_D70A;

/// The bit pattern of the circle constant.
pub const PI: u32 = 0x4049_0FDB;

/// The bit pattern of one half.
pub const HALF: u32 = 0x3F00_0000;

/// The bit pattern of 0.000001, the guard of the division by the norm.
pub const NORM_EPSILON: u32 = 0x3586_37BD;

/// The optimiser's state between runs: how many steps were taken, and the
/// running mean and mean square of the gradient of every weight.
pub struct OptimState<T> {
    pub step_count: u32,
    pub m: Vec<Tensor<T>>,
    pub v: Vec<Tensor<T>>,
}

/// Adam with decoupled weight decay.
pub struct AdamW<T> {
    pub lr: T,
    pub beta1: T,
    pub beta2: T,
    pub eps: T,
    pub weight_decay: T,
    pub state: OptimState<T>,
}

/// One moment for each weight of the model, of its shape.
pub open spec fn moments_fit<T: Float>(s: Seq<Tensor<T>>, m: Model<T>) -> bool {
    &&& s.len() == items(m.parts()).len()
    &&& forall|k: int|
        0 <= k < s.len() ==> (#[trigger] s[k]).wf() && s[k].shape@ == items(m.parts())[k].shape@
}

/// The running mean after a gradient.
pub open spec fn mean_after<T: Float>(m: T, g: T, beta: T) -> T {
    fadd(fmul(beta, m), fmul(fsub(fone::<T>(), beta), g))
}

/// The running mean square after a gradient.
pub open spec fn square_after<T: Float>(v: T, g: T, beta: T) -> T {
    fadd(fmul(beta, v), fmul(fsub(fone::<T>(), beta), fmul(g, g)))
}

/// What a running mean after `t` steps is divided by, for having started at zero.
pub open spec fn warm<T: Float>(beta: T, t: u32) -> T {
    fsub(fone::<T>(), fpow(beta, fcount::<T>(t as usize)))
}

/// A weight after a step, from its moments after the step.
pub open spec fn weight_after<T: Float>(
    p: T,
    m: T,
    v: T,
    lr: T,
    eps: T,
    decay: T,
    warm1: T,
    warm2: T,
) -> T {
    fsub(
        p,
        fmul(
            lr,
            fadd(
                fdiv(fdiv(m, warm1), fadd(fsqrt(fdiv(v, warm2)), eps)),
                fmul(decay, p),
            ),
        ),
    )
}

/// A moment of zeros for each weight.
fn zero_moments<T: Float>(model: &Model<T>) -> (r: Vec<Tensor<T>>)
    requires
        model.wf(),
    ensures
        moments_fit(r@, *model),
        deterministic::<T>() ==> forall|k: int|
            0 <= k < r@.len() ==> (#[trigger] r@[k])@ == crate::tensor::filled(
                items(model.parts())[k].shape@,
                fzero::<T>(),
            ),
{
    let all = model.params();
    let mut out: Vec<Tensor<T>> = Vec::new();
    let mut k: usize = 0;
    while k < all.len()
        invariant
            k <= all@.len(),
            model.wf(),
            all@.len() == items(model.parts()).len(),
            forall|q: int| 0 <= q < all@.len() ==> *(#[trigger] all@[q]) == items(model.parts())[q],
            out@.len() == k,
            forall|q: int|
                0 <= q < k ==> (#[trigger] out@[q]).wf() && out@[q].shape@ == items(
                    model.parts(),
                )[q].shape@,
            deterministic::<T>() ==> forall|q: int|
                0 <= q < k ==> (#[trigger] out@[q])@ == crate::tensor::filled(
                    items(model.parts())[q].shape@,
                    fzero::<T>(),
                ),
        decreases all@.len() - k,
    {
        proof {
            assert(items(model.parts())[k as int].wf());
        }
        out.push(all[k].filled_like(T::from_bits(ZERO)));
        k += 1;
    }
    out
}

/// The moment after a gradient, item by item.
fn moment_step<T: Float>(prev: &Tensor<T>, g: &Tensor<T>, beta: T, square: bool) -> (r: Tensor<T>)
    requires
        prev.wf(),
        g.wf(),
        g.shape@ == prev.shape@,
    ensures
        r.wf(),
        r.shape@ == prev.shape@,
        deterministic::<T>() ==> forall|i: int|
            0 <= i < r.data@.len() ==> #[trigger] r.data@[i] == if square {
                square_after(prev.data@[i], g.data@[i], beta)
            } else {
                mean_after(prev.data@[i], g.data@[i], beta)
            },
{
    let rest = T::from_bits(ONE).minus(beta);
    let mut out: Vec<T> = Vec::new();
    let mut i: usize = 0;
    while i < prev.data.len()
        invariant
            i <= prev.data@.len(),
            prev.data@.len() == g.data@.len(),
            out@.len() == i,
            deterministic::<T>() ==> rest == fsub(fone::<T>(), beta),
            deterministic::<T>() ==> forall|q: int|
                0 <= q < i ==> #[trigger] out@[q] == if square {
                    square_after(prev.data@[q], g.data@[q], beta)
                } else {
                    mean_after(prev.data@[q], g.data@[q], beta)
                },
        decreases prev.data@.len() - i,
    {
        let d = g.data[i];
        let x = if square {
            d.times(d)
        } else {
            d
        };
        out.push(beta.times(prev.data[i]).plus(rest.times(x)));
        i += 1;
    }
    Tensor { data: out, shape: copy_slice(prev.shape.as_slice()) }
}

/// The tensors of two lists are sound and pairwise of one shape.
pub open spec fn aligned<T: Float>(a: Seq<Tensor<T>>, b: Seq<Tensor<T>>) -> bool {
    &&& a.len() == b.len()
    &&& forall|k: int|
        0 <= k < a.len() ==> (#[trigger] a[k]).wf() && b[k].wf() && b[k].shape@ == a[k].shape@
}

/// Every moment after its gradient.
fn moments_step<T: Float>(
    prev: &Vec<Tensor<T>>,
    grads: &Vec<Tensor<T>>,
    beta: T,
    square: bool,
) -> (r: Vec<Tensor<T>>)
    requires
        aligned(prev@, grads@),
    ensures
        r@.len() == prev@.len(),
        forall|k: int|
            0 <= k < prev@.len() ==> {
                &&& (#[trigger] r@[k]).wf()
                &&& r@[k].shape@ == prev@[k].shape@
                &&& deterministic::<T>() ==> forall|i: int|
                    0 <= i < r@[k].data@.len() ==> #[trigger] r@[k].data@[i] == if square {
                        square_after(prev@[k].data@[i], grads@[k].data@[i], beta)
                    } else {
                        mean_after(prev@[k].data@[i], grads@[k].data@[i], beta)
                    }
            },
{
    let mut out: Vec<Tensor<T>> = Vec::new();
    let mut k: usize = 0;
    while k < prev.len()
        invariant
            k <= prev@.len(),
            aligned(prev@, grads@),
            out@.len() == k,
            forall|q: int|
                0 <= q < k ==> {
                    &&& (#[trigger] out@[q]).wf()
                    &&& out@[q].shape@ == prev@[q].shape@
                    &&& deterministic::<T>() ==> forall|i: int|
                        0 <= i < out@[q].data@.len() ==> #[trigger] out@[q].data@[i] == if square {
                            square_after(prev@[q].data@[i], grads@[q].data@[i], beta)
                        } else {
                            mean_after(prev@[q].data@[i], grads@[q].data@[i], beta)
                        }
                },
        decreases prev@.len() - k,
    {
        proof {
            assert(prev@[k as int].wf());
        }
        out.push(moment_step(&prev[k], &grads[k], beta, square));
        k += 1;
    }
    out
}

/// A weight after a step, item by item.
fn weight_step<T: Float>(
    p: &Tensor<T>,
    m: &Tensor<T>,
    v: &Tensor<T>,
    lr: T,
    eps: T,
    decay: T,
    warm1: T,
    warm2: T,
) -> (r: Tensor<T>)
    requires
        p.wf(),
        m.wf(),
        v.wf(),
        m.shape@ == p.shape@,
        v.shape@ == p.shape@,
    ensures
        r.wf(),
        r.shape@ == p.shape@,
        deterministic::<T>() ==> forall|i: int|
            0 <= i < r.data@.len() ==> #[trigger] r.data@[i] == weight_after(
                p.data@[i],
                m.data@[i],
                v.data@[i],
                lr,
                eps,
                decay,
                warm1,
                warm2,
            ),
{
    let mut out: Vec<T> = Vec::new();
    let mut i: usize = 0;
    while i < p.data.len()
        invariant
            i <= p.data@.len(),
            p.data@.len() == m.data@.len(),
            p.data@.len() == v.data@.len(),
            out@.len() == i,
            deterministic::<T>() ==> forall|q: int|
                0 <= q < i ==> #[trigger] out@[q] == weight_after(
                    p.data@[q],
                    m.data@[q],
                    v.data@[q],
                    lr,
                    eps,
                    decay,
                    warm1,
                    warm2,
                ),
        decreases p.data@.len() - i,
    {
        let x = p.data[i];
        let mean = m.data[i].over(warm1);
        let root = v.data[i].over(warm2).sqrt();
        let step = mean.over(root.plus(eps)).plus(decay.times(x));
        out.push(x.minus(lr.times(step)));
        i += 1;
    }
    Tensor { data: out, shape: copy_slice(p.shape.as_slice()) }
}

impl<T: Float> AdamW<T> {
    /// The optimiser's moments are those of the model's weights.
    pub open spec fn fits(self, m: Model<T>) -> bool {
        moments_fit(self.state.m@, m) && moments_fit(self.state.v@, m)
    }

    /// An optimiser for a model, with moments of zeros.
    pub fn new_for(model: &Model<T>, lr: T) -> (r: Self)
        requires
            model.wf(),
        ensures
            r.fits(*model),
            r.lr == lr,
            r.state.step_count == 0,
            deterministic::<T>() ==> {
                &&& r.beta1 == fbits::<T>(BETA1)
                &&& r.beta2 == fbits::<T>(BETA2)
                &&& r.eps == fbits::<T>(ADAM_EPSILON)
                &&& r.weight_decay == fbits::<T>(WEIGHT_DECAY)
                &&& forall|k: int|
                    0 <= k < r.state.m@.len() ==> (#[trigger] r.state.m@[k])@
                        == crate::tensor::filled(items(model.parts())[k].shape@, fzero::<T>())
                &&& forall|k: int|
                    0 <= k < r.state.v@.len() ==> (#[trigger] r.state.v@[k])@
                        == crate::tensor::filled(items(model.parts())[k].shape@, fzero::<T>())
            },
    {
        AdamW {
            lr,
            beta1: T::from_bits(BETA1),
            beta2: T::from_bits(BETA2),
            eps: T::from_bits(ADAM_EPSILON),
            weight_decay: T::from_bits(WEIGHT_DECAY),
            state: OptimState { step_count: 0, m: zero_moments(model), v: zero_moments(model) },
        }
    }

    /// Puts a saved state in place of the current one.
    pub fn restore(&mut self, state: OptimState<T>)
        ensures
            *final(self) == (AdamW { state, ..*old(self) }),
    {
        self.state = state;
    }

    /// Takes a step: every moment takes in its gradient and every weight is moved.
    pub fn step_with_grads(&mut self, model: &mut Model<T>, grads: &Vec<Tensor<T>>)
        requires
            old(self).fits(*old(model)),
            old(model).wf(),
            moments_fit(grads@, *old(model)),
            items(old(model).parts()).len() <= usize::MAX,
            old(self).state.step_count < u32::MAX,
        ensures
            final(self).fits(*final(model)),
            final(self).state.step_count == old(self).state.step_count + 1,
            final(self).lr == old(self).lr,
            final(self).beta1 == old(self).beta1,
            final(self).beta2 == old(self).beta2,
            final(self).eps == old(self).eps,
            final(self).weight_decay == old(self).weight_decay,
            final(model).wf(),
            final(model).config == old(model).config,
            same_form(final(model).parts(), old(model).parts()),
            items(final(model).parts()).len() == items(old(model).parts()).len(),
            forall|k: int|
                0 <= k < items(old(model).parts()).len() ==> (#[trigger] items(
                    final(model).parts(),
                )[k]).shape@ == items(old(model).parts())[k].shape@,
            deterministic::<T>() ==> forall|k: int, i: int|
                0 <= k < grads@.len() && 0 <= i < grads@[k].data@.len() ==> step_at(
                    *old(self),
                    *old(model),
                    *final(self),
                    *final(model),
                    #[trigger] grads@[k].data@[i],
                    k,
                    i,
                ),
    {
        let ghost before = *self;
        let ghost held = *model;
        let ghost all = items(model.parts());
        proof {
            assert(aligned(self.state.m@, grads@)) by {
                assert forall|k: int| 0 <= k < grads@.len() implies (#[trigger] self.state.m@[k]).wf()
                    && grads@[k].wf() && grads@[k].shape@ == self.state.m@[k].shape@ by {
                    assert(grads@[k].wf());
                }
            }
            assert(aligned(self.state.v@, grads@)) by {
                assert forall|k: int| 0 <= k < grads@.len() implies (#[trigger] self.state.v@[k]).wf()
                    && grads@[k].wf() && grads@[k].shape@ == self.state.v@[k].shape@ by {
                    assert(grads@[k].wf());
                }
            }
        }
        let count: u32 = self.state.step_count + 1;
        let m = moments_step(&self.state.m, grads, self.beta1, false);
        let v = moments_step(&self.state.v, grads, self.beta2, true);
        let one = T::from_bits(ONE);
        let t = T::from_count(count as usize);
        let warm1 = one.minus(self.beta1.pow(t));
        let warm2 = one.minus(self.beta2.pow(t));
        let lr = self.lr;
        let eps = self.eps;
        let decay = self.weight_decay;
        let step = |k: usize, p: &Tensor<T>| -> (r: Tensor<T>)
            requires
                k < m@.len(),
                k < v@.len(),
                p.wf(),
                m@[k as int].wf(),
                v@[k as int].wf(),
                m@[k as int].shape@ == p.shape@,
                v@[k as int].shape@ == p.shape@,
            ensures
                r.wf(),
                r.shape@ == p.shape@,
                deterministic::<T>() ==> forall|i: int|
                    0 <= i < r.data@.len() ==> #[trigger] r.data@[i] == weight_after(
                        p.data@[i],
                        m@[k as int].data@[i],
                        v@[k as int].data@[i],
                        lr,
                        eps,
                        decay,
                        warm1,
                        warm2,
                    ),
            { weight_step(p, &m[k], &v[k], lr, eps, decay, warm1, warm2) };
        proof {
            assert forall|k: int| 0 <= k < all.len() implies step.requires(
                (k as usize, #[trigger] &all[k]),
            ) by {
                assert(all[k].wf());
                assert(self.state.m@[k].wf());
                assert(self.state.v@[k].wf());
                assert(m@[k].wf());
                assert(v@[k].wf());
            }
        }
        model.for_each_param_mut(step);
        self.state = OptimState { step_count: count, m, v };
        proof {
            let news = items(model.parts());
            assert forall|k: int| 0 <= k < all.len() implies {
                &&& (#[trigger] news[k]).wf()
                &&& news[k].shape@ == all[k].shape@
                &&& deterministic::<T>() ==> forall|i: int|
                    0 <= i < news[k].data@.len() ==> #[trigger] news[k].data@[i] == weight_after(
                        all[k].data@[i],
                        self.state.m@[k].data@[i],
                        self.state.v@[k].data@[i],
                        lr,
                        eps,
                        decay,
                        warm1,
                        warm2,
                    )
            } by {
                assert(step.ensures((k as usize, &all[k]), news[k]));
            }
            assert forall|k: int| 0 <= k < all.len() implies (#[trigger] self.state.m@[k]).wf()
                && self.state.m@[k].shape@ == news[k].shape@ by {
                assert(before.state.m@[k].wf());
            }
            assert forall|k: int| 0 <= k < all.len() implies (#[trigger] self.state.v@[k]).wf()
                && self.state.v@[k].shape@ == news[k].shape@ by {
                assert(before.state.v@[k].wf());
            }
            if deterministic::<T>() {
                assert forall|k: int, i: int|
                    0 <= k < grads@.len() && 0 <= i < grads@[k].data@.len() implies step_at(
                    before,
                    held,
                    *self,
                    *model,
                    #[trigger] grads@[k].data@[i],
                    k,
                    i,
                ) by {
                    assert(before.state.m@[k].wf());
                    assert(before.state.v@[k].wf());
                    assert(grads@[k].wf());
                    assert(self.state.m@[k].wf());
                    assert(self.state.v@[k].wf());
                    assert(news[k].wf());
                    assert(self.state.m@[k].data@[i] == mean_after(
                        before.state.m@[k].data@[i],
                        grads@[k].data@[i],
                        before.beta1,
                    ));
                    assert(self.state.v@[k].data@[i] == square_after(
                        before.state.v@[k].data@[i],
                        grads@[k].data@[i],
                        before.beta2,
                    ));
                }
            }
        }
    }
}

/// Item `i` of weight `k` and of its moments is what a step makes of it for gradient `g`.
pub open spec fn step_at<T: Float>(
    a: AdamW<T>,
    am: Model<T>,
    b: AdamW<T>,
    bm: Model<T>,
    g: T,
    k: int,
    i: int,
) -> bool {
    let m = mean_after(a.state.m@[k].data@[i], g, a.beta1);
    let v = square_after(a.state.v@[k].data@[i], g, a.beta2);
    let t = (a.state.step_count + 1) as u32;
    &&& b.state.m@[k].data@[i] == m
    &&& b.state.v@[k].data@[i] == v
    &&& items(bm.parts())[k].data@[i] == weight_after(
        items(am.parts())[k].data@[i],
        m,
        v,
        a.lr,
        a.eps,
        a.weight_decay,
        warm(a.beta1, t),
        warm(a.beta2, t),
    )
}

/// The squares of all items of the first `n` tensors, added up tensor by tensor.
pub open spec fn square_sum<T: Float>(s: Seq<Array<T>>, n: nat) -> T
    decreases n,
{
    if n == 0 {
        fzero::<T>()
    } else {
        let a = s[n - 1].data;
        fadd(
            square_sum(s, (n - 1) as nat),
            fsum(Seq::new(a.len(), |i: int| fmul(a[i], a[i]))),
        )
    }
}

/// The norm of all items of some tensors together.
pub open spec fn norm_of<T: Float>(s: Seq<Array<T>>) -> T {
    fsqrt(square_sum(s, s.len()))
}

/// The factor that brings a norm down to a limit.
pub open spec fn clip_factor<T: Float>(norm: T, limit: T) -> T {
    fdiv(limit, fadd(norm, fbits::<T>(NORM_EPSILON)))
}

/// The norm of all items of some tensors together.
fn grad_norm<T: Float>(grads: &Vec<Tensor<T>>) -> (r: T)
    ensures
        deterministic::<T>() ==> r == norm_of(crate::autograd::arrays(grads@)),
{
    let ghost s = crate::autograd::arrays(grads@);
    let mut acc = T::from_bits(ZERO);
    let mut k: usize = 0;
    while k < grads.len()
        invariant
            k <= grads@.len(),
            s == crate::autograd::arrays(grads@),
            deterministic::<T>() ==> acc == square_sum(s, k as nat),
        decreases grads@.len() - k,
    {
        let data = &grads[k].data;
        let mut squares: Vec<T> = Vec::new();
        let mut i: usize = 0;
        while i < data.len()
            invariant
                i <= data@.len(),
                squares@.len() == i,
                deterministic::<T>() ==> forall|q: int|
                    0 <= q < i ==> squares@[q] == fmul(data@[q], data@[q]),
            decreases data@.len() - i,
        {
            squares.push(data[i].times(data[i]));
            i += 1;
        }
        proof {
            if deterministic::<T>() {
                let a = s[k as int].data;
                assert(squares@ =~= Seq::new(a.len(), |i: int| fmul(a[i], a[i])));
            }
        }
        acc = acc.plus(sum(squares.as_slice()));
        k += 1;
    }
    acc.sqrt()
}

/// Scales all gradients down together where their norm is above a limit, and
/// gives the norm before.
pub fn clip_grad_norm_tensors<T: Float>(grads: &mut Vec<Tensor<T>>, limit: T) -> (r: T)
    requires
        forall|k: int| 0 <= k < old(grads)@.len() ==> (#[trigger] old(grads)@[k]).wf(),
    ensures
        final(grads)@.len() == old(grads)@.len(),
        forall|k: int|
            0 <= k < old(grads)@.len() ==> {
                &&& (#[trigger] final(grads)@[k]).wf()
                &&& final(grads)@[k].shape@ == old(grads)@[k].shape@
            },
        deterministic::<T>() ==> {
            let s = crate::autograd::arrays(old(grads)@);
            let norm = norm_of(s);
            &&& r == norm
            &&& forall|k: int|
                0 <= k < old(grads)@.len() ==> (#[trigger] final(grads)@[k])@ == if flt(
                    limit,
                    norm,
                ) {
                    crate::tensor::scale_of(s[k], clip_factor(norm, limit))
                } else {
                    s[k]
                }
        },
{
    let ghost start = grads@;
    let norm = grad_norm(grads);
    if limit.below(norm) {
        let factor = limit.over(norm.plus(T::from_bits(NORM_EPSILON)));
        let n: usize = grads.len();
        let mut k: usize = 0;
        while k < n
            invariant
                k <= n,
                n == start.len(),
                grads@.len() == n,
                forall|q: int| 0 <= q < n ==> (#[trigger] start[q]).wf(),
                forall|q: int| k <= q < n ==> grads@[q] == start[q],
                forall|q: int|
                    0 <= q < k ==> {
                        &&& (#[trigger] grads@[q]).wf()
                        &&& grads@[q].shape@ == start[q].shape@
                        &&& deterministic::<T>() ==> grads@[q]@ == crate::tensor::scale_of(
                            start[q]@,
                            factor,
                        )
                    },
            decreases n - k,
        {
            proof {
                assert(start[k as int].wf());
            }
            let scaled = grads[k].mul_scalar(factor);
            grads.set(k, scaled);
            k += 1;
        }
    }
    norm
}

/// The learning rate at a step: a linear rise over the warm-up, then half a
/// cosine from the peak down to the floor, and the floor from the end on.
pub open spec fn scheduled<T: Float>(
    step: usize,
    warmup: usize,
    total: usize,
    peak: T,
    floor: T,
) -> T {
    if step < warmup {
        fdiv(fmul(peak, fcount::<T>(step)), fcount::<T>(warmup))
    } else if step >= total {
        floor
    } else {
        let progress = fdiv(
            fcount::<T>((step - warmup) as usize),
            fcount::<T>((total - warmup) as usize),
        );
        fadd(
            floor,
            fmul(
                fmul(fbits::<T>(HALF), fsub(peak, floor)),
                fadd(fone::<T>(), fcos(fmul(fbits::<T>(PI), progress))),
            ),
        )
    }
}

/// The learning rate at a step.
pub fn cosine_lr<T: Float>(step: usize, warmup: usize, total: usize, peak: T, floor: T) -> (r: T)
    ensures
        deterministic::<T>() ==> r == scheduled(step, warmup, total, peak, floor),
{
    if step < warmup {
        return peak.times(T::from_count(step)).over(T::from_count(warmup));
    }
    if step >= total {
        return floor;
    }
    let progress = T::from_count(step - warmup).over(T::from_count(total - warmup));
    let wave = T::from_bits(ONE).plus(T::from_bits(PI).times(progress).cos());
    floor.plus(T::from_bits(HALF).times(peak.minus(floor)).times(wave))
}

/// The schedule stays at its floor from its end on.
pub proof fn law_schedule_ends_at_floor<T: Float>(
    step: usize,
    warmup: usize,
    total: usize,
    peak: T,
    floor: T,
)
    requires
        warmup <= step,
        total <= step,
    ensures
        scheduled(step, warmup, total, peak, floor) == floor,
{
}

} // verus!
