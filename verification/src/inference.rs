//! Autoregressive generation over the whole context.
use crate::autograd::Tape;
use crate::data::{lcg_next, lcg_start, unit_of, Lcg, Vocab};
use crate::float::{
    clamp, deterministic, fadd, fbits, fclamp, fcount, fdiv, feq, flt, fmul, fone, fsum, fzero, sum,
    Float, ONE, ZERO,
};
use crate::layout::ModelOf;
use crate::model::{
    lcg_skip, lemma_leaves_fit, lemma_planted, lemma_run_fits_less, lemma_shaped_wf, logits_of,
    run_fits, Model, ModelConfig,
};
use crate::ops::{ids_below, max_of_row, scale_row, shifted_exps};
use crate::tensor::{copy_slice, repeat, Array};
use vstd::prelude::*;
use vstd::slice::slice_subrange;

verus! {

/// The bit pattern of 0.000001, the lowest temperature.
pub const MIN_TEMPERATURE: u32 = 0x3586_37BD;

/// The bit pattern of 0.001, the lowest probability mass kept.
pub const MIN_MASS: u32 = 0x3A83_126F;

/// How the next token is picked from the logits.
#[derive(Debug, Clone, Copy)]
pub enum SamplingMode<T> {
    /// The token with the largest logit.
    Greedy,
    /// A draw from the softmax at a temperature.
    Temperature { temperature: T },
    /// A draw from the `k` most likely tokens.
    TopK { k: usize, temperature: T },
    /// A draw from the most likely tokens that together reach mass `p`.
    TopP { p: T, temperature: T },
}

/// The place of the largest item, the last of several. An item that cannot be
/// compared, such as a NaN, takes the place of the best before it.
pub open spec fn argmax_of<T: Float>(s: Seq<T>) -> nat
    decreases s.len(),
{
    if s.len() <= 1 {
        0
    } else {
        let b = argmax_of(s.drop_last());
        if flt(s.last(), s[b as int]) {
            b
        } else {
            (s.len() - 1) as nat
        }
    }
}

/// The temperature, held above the lowest.
pub open spec fn floored<T: Float>(t: T) -> T {
    if flt(fbits::<T>(MIN_TEMPERATURE), t) {
        t
    } else {
        fbits::<T>(MIN_TEMPERATURE)
    }
}

/// The logits divided by a temperature.
pub open spec fn tempered<T: Float>(s: Seq<T>, t: T) -> Seq<T> {
    Seq::new(s.len(), |k: int| fmul(s[k], fdiv(fone::<T>(), floored(t))))
}

/// The softmax at a temperature; uniform where every exponential vanishes.
pub open spec fn tempered_softmax<T: Float>(s: Seq<T>, t: T) -> Seq<T> {
    let e = shifted_exps(tempered(s, t));
    let d = fsum(e);
    if feq(d, fzero::<T>()) {
        Seq::new(s.len(), |k: int| fdiv(fone::<T>(), fcount::<T>(s.len() as usize)))
    } else {
        Seq::new(s.len(), |k: int| fdiv(e[k], d))
    }
}

/// The first place from `i` on at which the running sum, `acc` so far, passes
/// `target`; the last place where none does.
pub open spec fn picked<T: Float>(s: Seq<T>, target: T, i: nat, acc: T) -> nat
    decreases s.len() - i,
{
    if i >= s.len() {
        (s.len() - 1) as nat
    } else {
        let c = fadd(acc, s[i as int]);
        if flt(target, c) {
            i
        } else {
            picked(s, target, i + 1, c)
        }
    }
}

/// Where `x` goes in a list ranked from the most likely: before the first that
/// is strictly less likely.
pub open spec fn rank_place<T: Float>(s: Seq<(usize, T)>, x: T, i: nat) -> nat
    decreases s.len() - i,
{
    if i >= s.len() {
        s.len()
    } else if flt(s[i as int].1, x) {
        i
    } else {
        rank_place(s, x, i + 1)
    }
}

/// The first `n` items with their places, ranked from the most likely; the
/// earlier first among equals.
pub open spec fn ranked<T: Float>(s: Seq<T>, n: nat) -> Seq<(usize, T)>
    decreases n,
{
    if n == 0 {
        seq![]
    } else {
        let before = ranked(s, (n - 1) as nat);
        let x = s[n - 1];
        before.insert(rank_place(before, x, 0) as int, ((n - 1) as usize, x))
    }
}

/// The probabilities of a list.
pub open spec fn masses<T: Float>(s: Seq<(usize, T)>) -> Seq<T> {
    Seq::new(s.len(), |k: int| s[k].1)
}

/// A list whose probabilities are divided by their sum; uniform where it is not above zero.
pub open spec fn renormalised<T: Float>(s: Seq<(usize, T)>) -> Seq<(usize, T)> {
    let total = fsum(masses(s));
    Seq::new(
        s.len(),
        |k: int|
            (
                s[k].0,
                if flt(fzero::<T>(), total) {
                    fdiv(s[k].1, total)
                } else {
                    fdiv(fone::<T>(), fcount::<T>(s.len() as usize))
                },
            ),
    )
}

/// How many of the most likely are kept: at least one, and no more than there are.
pub open spec fn kept(k: usize, n: nat) -> nat {
    let least: nat = if k < 1 {
        1
    } else {
        k as nat
    };
    if least < n {
        least
    } else {
        n
    }
}

/// The `k` most likely, renormalised.
pub open spec fn top_k_of<T: Float>(s: Seq<T>, k: usize) -> Seq<(usize, T)> {
    renormalised(ranked(s, s.len()).take(kept(k, s.len()) as int))
}

/// How many of a ranked list it takes, from `i` on with `acc` so far, to reach mass `p`.
pub open spec fn mass_cutoff<T: Float>(s: Seq<(usize, T)>, p: T, i: nat, acc: T) -> nat
    decreases s.len() - i,
{
    if i >= s.len() {
        s.len()
    } else {
        let c = fadd(acc, s[i as int].1);
        if flt(p, c) || feq(p, c) {
            i + 1
        } else {
            mass_cutoff(s, p, i + 1, c)
        }
    }
}

/// The most likely that together reach mass `p`, renormalised.
pub open spec fn top_p_of<T: Float>(s: Seq<T>, p: T) -> Seq<(usize, T)> {
    let r = ranked(s, s.len());
    let q = fclamp(p, fbits::<T>(MIN_MASS), fone::<T>());
    renormalised(r.take(mass_cutoff(r, q, 0, fzero::<T>()) as int))
}

/// The place that a draw picks from a list; 0 from an empty one.
pub open spec fn picked_pair<T: Float>(s: Seq<(usize, T)>, target: T) -> nat {
    if s.len() == 0 {
        0
    } else {
        s[picked(masses(s), target, 0, fzero::<T>()) as int].0 as nat
    }
}

/// Whether a mode draws a number for these logits.
pub open spec fn draws<T: Float>(mode: SamplingMode<T>, n: nat) -> bool {
    match mode {
        SamplingMode::Greedy => false,
        SamplingMode::Temperature { temperature } => true,
        _ => n > 0,
    }
}

/// The token that a mode picks from logits for a drawn number.
pub open spec fn choice_of<T: Float>(logits: Seq<T>, mode: SamplingMode<T>, target: T) -> nat {
    match mode {
        SamplingMode::Greedy => argmax_of(logits),
        SamplingMode::Temperature { temperature } => picked(
            tempered_softmax(logits, temperature),
            target,
            0,
            fzero::<T>(),
        ),
        SamplingMode::TopK { k, temperature } => picked_pair(
            top_k_of(tempered_softmax(logits, temperature), k),
            target,
        ),
        SamplingMode::TopP { p, temperature } => picked_pair(
            top_p_of(tempered_softmax(logits, temperature), p),
            target,
        ),
    }
}

/// The generator's state after a mode has picked.
pub open spec fn state_after<T: Float>(mode: SamplingMode<T>, n: nat, s: u64) -> u64 {
    if draws(mode, n) {
        lcg_next(s)
    } else {
        s
    }
}

/// The generator's state after a mode has picked `count` times.
pub open spec fn states_after<T: Float>(mode: SamplingMode<T>, n: nat, s: u64, count: nat) -> u64 {
    if draws(mode, n) {
        lcg_skip(s, count)
    } else {
        s
    }
}

/// The place of the largest item, the last of several.
pub fn argmax<T: Float>(values: &[T]) -> (r: usize)
    requires
        values@.len() > 0,
    ensures
        r < values@.len(),
        deterministic::<T>() ==> r == argmax_of(values@),
{
    let mut best: usize = 0;
    let mut i: usize = 1;
    proof {
        assert(values@.take(1).len() == 1);
    }
    while i < values.len()
        invariant
            1 <= i <= values@.len(),
            best < i,
            deterministic::<T>() ==> best == argmax_of(values@.take(i as int)),
        decreases values@.len() - i,
    {
        proof {
            assert(values@.take(i + 1).drop_last() =~= values@.take(i as int));
        }
        if !values[i].below(values[best]) {
            best = i;
        }
        i += 1;
    }
    proof {
        assert(values@.take(i as int) =~= values@);
    }
    best
}

/// The items divided by `d`.
pub fn divide_row<T: Float>(xs: &[T], d: T) -> (r: Vec<T>)
    ensures
        r@.len() == xs@.len(),
        deterministic::<T>() ==> r@ == Seq::new(xs@.len(), |k: int| fdiv(xs@[k], d)),
{
    let mut out: Vec<T> = Vec::new();
    let mut i: usize = 0;
    while i < xs.len()
        invariant
            i <= xs@.len(),
            out@.len() == i,
            deterministic::<T>() ==> forall|k: int| 0 <= k < i ==> out@[k] == fdiv(xs@[k], d),
        decreases xs@.len() - i,
    {
        out.push(xs[i].over(d));
        i += 1;
    }
    proof {
        if deterministic::<T>() {
            assert(out@ =~= Seq::new(xs@.len(), |k: int| fdiv(xs@[k], d)));
        }
    }
    out
}

/// The exponentials of the items after their largest is taken off.
pub fn exps_of_row<T: Float>(xs: &[T]) -> (r: Vec<T>)
    ensures
        r@.len() == xs@.len(),
        deterministic::<T>() ==> r@ == shifted_exps(xs@),
{
    let top = max_of_row(xs);
    let mut out: Vec<T> = Vec::new();
    let mut i: usize = 0;
    while i < xs.len()
        invariant
            i <= xs@.len(),
            out@.len() == i,
            deterministic::<T>() ==> forall|k: int|
                0 <= k < i ==> out@[k] == crate::float::fexp(crate::float::fsub(xs@[k], top)),
        decreases xs@.len() - i,
    {
        out.push(xs[i].minus(top).exp());
        i += 1;
    }
    proof {
        if deterministic::<T>() {
            assert(out@ =~= shifted_exps(xs@));
        }
    }
    out
}

/// The logits divided by a temperature.
pub fn temper<T: Float>(logits: &[T], temperature: T) -> (r: Vec<T>)
    ensures
        r@.len() == logits@.len(),
        deterministic::<T>() ==> r@ == tempered(logits@, temperature),
{
    let least = T::from_bits(MIN_TEMPERATURE);
    let t = if least.below(temperature) {
        temperature
    } else {
        least
    };
    let inv = T::from_bits(ONE).over(t);
    let r = scale_row(logits, inv);
    proof {
        if deterministic::<T>() {
            assert(r@ =~= tempered(logits@, temperature));
        }
    }
    r
}

/// The softmax at a temperature; uniform where every exponential vanishes.
pub fn softmax_with_temperature<T: Float>(logits: &[T], temperature: T) -> (r: Vec<T>)
    ensures
        r@.len() == logits@.len(),
        deterministic::<T>() ==> r@ == tempered_softmax(logits@, temperature),
{
    let scaled = temper(logits, temperature);
    let exps = exps_of_row(scaled.as_slice());
    let denom = sum(exps.as_slice());
    if denom.same(T::from_bits(ZERO)) {
        let uniform = T::from_bits(ONE).over(T::from_count(logits.len()));
        let r = repeat(uniform, logits.len());
        proof {
            if deterministic::<T>() {
                assert(r@ =~= tempered_softmax(logits@, temperature));
            }
        }
        return r;
    }
    let r = divide_row(exps.as_slice(), denom);
    proof {
        if deterministic::<T>() {
            assert(r@ =~= tempered_softmax(logits@, temperature));
        }
    }
    r
}

/// The first place at which the running sum passes `target`, the last where none does.
pub fn pick<T: Float>(probs: &[T], target: T) -> (r: usize)
    requires
        probs@.len() > 0,
    ensures
        r < probs@.len(),
        deterministic::<T>() ==> r == picked(probs@, target, 0, fzero::<T>()),
{
    let mut acc = T::from_bits(ZERO);
    let mut i: usize = 0;
    while i < probs.len()
        invariant
            i <= probs@.len(),
            probs@.len() > 0,
            deterministic::<T>() ==> picked(probs@, target, i as nat, acc) == picked(
                probs@,
                target,
                0,
                fzero::<T>(),
            ),
        decreases probs@.len() - i,
    {
        acc = acc.plus(probs[i]);
        if target.below(acc) {
            return i;
        }
        i += 1;
    }
    probs.len() - 1
}

/// Draws a number and picks the first place at which the running sum passes it.
pub fn sample_from_probs<T: Float>(probs: &[T], rng: &mut Lcg) -> (r: usize)
    requires
        probs@.len() > 0,
    ensures
        r < probs@.len(),
        final(rng).state == lcg_next(old(rng).state),
        deterministic::<T>() ==> r == picked(
            probs@,
            unit_of::<T>(final(rng).state),
            0,
            fzero::<T>(),
        ),
{
    let target: T = rng.next_f01();
    pick(probs, target)
}

/// Draws a number and picks from a list by it; 0, with nothing drawn, from an empty list.
pub fn sample_from_truncated<T: Float>(truncated: &[(usize, T)], rng: &mut Lcg) -> (r: usize)
    ensures
        truncated@.len() == 0 ==> r == 0 && final(rng).state == old(rng).state,
        truncated@.len() > 0 ==> {
            &&& final(rng).state == lcg_next(old(rng).state)
            &&& exists|k: int| 0 <= k < truncated@.len() && #[trigger] truncated@[k].0 == r
            &&& deterministic::<T>() ==> r == picked_pair(
                truncated@,
                unit_of::<T>(final(rng).state),
            )
        },
{
    if truncated.len() == 0 {
        return 0;
    }
    let target: T = rng.next_f01();
    let probs = list_masses(truncated);
    let k: usize = pick(probs.as_slice(), target);
    proof {
        assert(truncated@[k as int].0 == truncated@[k as int].0);
    }
    truncated[k].0
}

/// The probabilities of a list.
fn list_masses<T: Float>(pairs: &[(usize, T)]) -> (r: Vec<T>)
    ensures
        r@ == masses(pairs@),
{
    let mut out: Vec<T> = Vec::new();
    let mut i: usize = 0;
    while i < pairs.len()
        invariant
            i <= pairs@.len(),
            out@ =~= masses(pairs@).take(i as int),
        decreases pairs@.len() - i,
    {
        out.push(pairs[i].1);
        i += 1;
    }
    proof {
        assert(out@ =~= masses(pairs@));
    }
    out
}

/// Every place in a list is below `n`.
pub open spec fn places_below<T>(s: Seq<(usize, T)>, n: nat) -> bool {
    forall|k: int| 0 <= k < s.len() ==> (#[trigger] s[k]).0 < n
}

/// The items with their places, ranked from the most likely, the earlier first
/// among equals.
pub fn rank<T: Float>(probs: &[T]) -> (r: Vec<(usize, T)>)
    ensures
        r@.len() == probs@.len(),
        places_below(r@, probs@.len()),
        deterministic::<T>() ==> r@ == ranked(probs@, probs@.len()),
{
    let mut out: Vec<(usize, T)> = Vec::new();
    let mut n: usize = 0;
    while n < probs.len()
        invariant
            n <= probs@.len(),
            out@.len() == n,
            places_below(out@, n as nat),
            deterministic::<T>() ==> out@ == ranked(probs@, n as nat),
        decreases probs@.len() - n,
    {
        let x = probs[n];
        let mut i: usize = 0;
        let mut found: bool = false;
        while !found && i < out.len()
            invariant
                i <= out@.len(),
                out@.len() == n,
                deterministic::<T>() ==> {
                    &&& !found ==> rank_place(out@, x, i as nat) == rank_place(out@, x, 0)
                    &&& found ==> i == rank_place(out@, x, 0)
                },
            decreases
                out@.len() - i,
                if found {
                    0int
                } else {
                    1int
                },
        {
            if out[i].1.below(x) {
                found = true;
            } else {
                i += 1;
            }
        }
        let ghost before = out@;
        out.insert(i, (n, x));
        proof {
            assert(out@ =~= before.insert(i as int, (n, x)));
            assert forall|k: int| 0 <= k < out@.len() implies (#[trigger] out@[k]).0 < n + 1 by {
                if k < i {
                    assert(out@[k] == before[k]);
                } else if k > i {
                    assert(out@[k] == before[k - 1]);
                }
            }
        }
        n += 1;
    }
    out
}

/// Divides the probabilities of a list by their sum; makes them uniform where it
/// is not above zero.
pub fn renormalise<T: Float>(pairs: &mut Vec<(usize, T)>)
    ensures
        final(pairs)@.len() == old(pairs)@.len(),
        forall|k: int|
            0 <= k < old(pairs)@.len() ==> (#[trigger] final(pairs)@[k]).0 == old(pairs)@[k].0,
        deterministic::<T>() ==> final(pairs)@ == renormalised(old(pairs)@),
{
    let ghost start = pairs@;
    let n: usize = pairs.len();
    let probs = list_masses(pairs.as_slice());
    let total = sum(probs.as_slice());
    let positive: bool = T::from_bits(ZERO).below(total);
    let uniform = T::from_bits(ONE).over(T::from_count(n));
    let mut i: usize = 0;
    while i < n
        invariant
            i <= n,
            n == start.len(),
            pairs@.len() == n,
            forall|k: int| 0 <= k < n ==> (#[trigger] pairs@[k]).0 == start[k].0,
            forall|k: int| i <= k < n ==> pairs@[k] == start[k],
            deterministic::<T>() ==> {
                &&& total == fsum(masses(start))
                &&& positive == flt(fzero::<T>(), total)
                &&& uniform == fdiv(fone::<T>(), fcount::<T>(n))
                &&& forall|k: int| 0 <= k < i ==> pairs@[k] == renormalised(start)[k]
            },
        decreases n - i,
    {
        let (place, p) = pairs[i];
        let q = if positive {
            p.over(total)
        } else {
            uniform
        };
        pairs.set(i, (place, q));
        i += 1;
    }
    proof {
        if deterministic::<T>() {
            assert(pairs@ =~= renormalised(start));
        }
    }
}

/// The `k` most likely with their places, renormalised: at least one, and no
/// more than there are.
pub fn truncate_top_k<T: Float>(probs: &[T], k: usize) -> (r: Vec<(usize, T)>)
    ensures
        r@.len() == kept(k, probs@.len()),
        places_below(r@, probs@.len()),
        deterministic::<T>() ==> r@ == top_k_of(probs@, k),
{
    let least: usize = if k < 1 {
        1
    } else {
        k
    };
    let n: usize = if least < probs.len() {
        least
    } else {
        probs.len()
    };
    let mut pairs = rank(probs);
    let ghost all = pairs@;
    pairs.truncate(n);
    proof {
        assert(pairs@ =~= all.take(n as int));
    }
    renormalise(&mut pairs);
    pairs
}

/// The most likely with their places that together reach mass `p`, renormalised.
pub fn truncate_top_p<T: Float>(probs: &[T], p: T) -> (r: Vec<(usize, T)>)
    ensures
        r@.len() <= probs@.len(),
        probs@.len() > 0 ==> r@.len() > 0,
        places_below(r@, probs@.len()),
        deterministic::<T>() ==> r@ == top_p_of(probs@, p),
{
    let q = clamp(p, T::from_bits(MIN_MASS), T::from_bits(ONE));
    let mut pairs = rank(probs);
    let ghost all = pairs@;
    let n: usize = mass_reached(pairs.as_slice(), q);
    pairs.truncate(n);
    proof {
        assert(pairs@ =~= all.take(n as int));
    }
    renormalise(&mut pairs);
    pairs
}

/// How many of a ranked list it takes to reach mass `p`; all where it is not reached.
pub fn mass_reached<T: Float>(pairs: &[(usize, T)], p: T) -> (r: usize)
    ensures
        r <= pairs@.len(),
        pairs@.len() > 0 ==> r > 0,
        deterministic::<T>() ==> r == mass_cutoff(pairs@, p, 0, fzero::<T>()),
{
    let mut acc = T::from_bits(ZERO);
    let mut i: usize = 0;
    while i < pairs.len()
        invariant
            i <= pairs@.len(),
            deterministic::<T>() ==> mass_cutoff(pairs@, p, i as nat, acc) == mass_cutoff(
                pairs@,
                p,
                0,
                fzero::<T>(),
            ),
        decreases pairs@.len() - i,
    {
        acc = acc.plus(pairs[i].1);
        if p.below(acc) || p.same(acc) {
            return i + 1;
        }
        i += 1;
    }
    pairs.len()
}

/// Picks a token from logits.
pub fn choose_token<T: Float>(logits: &[T], mode: SamplingMode<T>, rng: &mut Lcg) -> (r: usize)
    requires
        logits@.len() > 0,
    ensures
        r < logits@.len(),
        final(rng).state == state_after(mode, logits@.len(), old(rng).state),
        deterministic::<T>() ==> r == choice_of(
            logits@,
            mode,
            unit_of::<T>(final(rng).state),
        ),
{
    match mode {
        SamplingMode::Greedy => argmax(logits),
        SamplingMode::Temperature { temperature } => {
            let probs = softmax_with_temperature(logits, temperature);
            sample_from_probs(probs.as_slice(), rng)
        },
        SamplingMode::TopK { k, temperature } => {
            let probs = softmax_with_temperature(logits, temperature);
            let truncated = truncate_top_k(probs.as_slice(), k);
            sample_from_truncated(truncated.as_slice(), rng)
        },
        SamplingMode::TopP { p, temperature } => {
            let probs = softmax_with_temperature(logits, temperature);
            let truncated = truncate_top_p(probs.as_slice(), p);
            sample_from_truncated(truncated.as_slice(), rng)
        },
    }
}

/// The ids that the model sees: the last `n` of them.
pub open spec fn context_of(ids: Seq<usize>, n: nat) -> Seq<usize> {
    if ids.len() > n {
        ids.skip(ids.len() - n)
    } else {
        ids
    }
}

/// The logits of the next token.
pub open spec fn next_logits<T: Float>(
    m: ModelOf<Array<T>>,
    c: ModelConfig,
    ids: Seq<usize>,
) -> Seq<T> {
    let context = context_of(ids, c.max_seq_len as nat);
    logits_of(m, context, c.head_dim).row((context.len() - 1) as nat)
}

/// The ids after `n` more have been picked, and the generator's state then.
pub open spec fn generated<T: Float>(
    m: ModelOf<Array<T>>,
    c: ModelConfig,
    ids: Seq<usize>,
    mode: SamplingMode<T>,
    state: u64,
    n: nat,
) -> (Seq<usize>, u64)
    decreases n,
{
    if n == 0 {
        (ids, state)
    } else {
        let (before, s) = generated(m, c, ids, mode, state, (n - 1) as nat);
        let t = state_after(mode, c.vocab_size as nat, s);
        (
            before.push(
                choice_of(next_logits(m, c, before), mode, unit_of::<T>(t)) as usize,
            ),
            t,
        )
    }
}

/// The model can run over its longest context and give a logit at all.
pub open spec fn can_generate<T: Float>(m: Model<T>) -> bool {
    &&& m.shaped()
    &&& m.config.max_seq_len > 0
    &&& m.config.vocab_size > 0
    &&& run_fits(m.config, m.config.max_seq_len as nat)
}

/// Picks the token that follows `ids`.
pub fn sample_next<T: Float>(
    model: &Model<T>,
    ids: &[usize],
    mode: SamplingMode<T>,
    rng: &mut Lcg,
) -> (r: usize)
    requires
        can_generate(*model),
        ids@.len() > 0,
        ids_below(ids@, model.config.vocab_size),
    ensures
        r < model.config.vocab_size,
        final(rng).state == state_after(
            mode,
            model.config.vocab_size as nat,
            old(rng).state,
        ),
        deterministic::<T>() ==> r == choice_of(
            next_logits(model@, model.config, ids@),
            mode,
            unit_of::<T>(final(rng).state),
        ),
{
    let max_len: usize = model.config.max_seq_len;
    let context: &[usize] = if ids.len() > max_len {
        slice_subrange(ids, ids.len() - max_len, ids.len())
    } else {
        ids
    };
    proof {
        assert(context@ =~= context_of(ids@, max_len as nat));
        assert(ids_below(context@, model.config.vocab_size));
        lemma_run_fits_less(model.config, context@.len(), max_len as nat);
        lemma_shaped_wf(*model);
    }
    let mut tape: Tape<T> = Tape::new();
    let ghost t0 = tape@;
    let leaves = model.register_leaves(&mut tape);
    let ghost t1 = tape@;
    proof {
        lemma_planted(t0, t1, *model, leaves);
        lemma_leaves_fit(t1, *model, leaves, context@);
        assert(t1.value(leaves.token_embed) == model@.embed);
    }
    let logits = model.forward(&mut tape, &leaves, context);
    let value = logits.value(&tape);
    let row = copy_slice(value.row(context.len() - 1));
    choose_token(row.as_slice(), mode, rng)
}

/// The ids of a prompt and of the tokens generated after it.
fn extend_ids<T: Float>(
    model: &Model<T>,
    ids: &mut Vec<usize>,
    max_new_tokens: usize,
    mode: SamplingMode<T>,
    rng: &mut Lcg,
)
    requires
        can_generate(*model),
        old(ids)@.len() > 0 || max_new_tokens == 0,
        ids_below(old(ids)@, model.config.vocab_size),
    ensures
        final(ids)@.len() == old(ids)@.len() + max_new_tokens,
        old(ids)@.is_prefix_of(final(ids)@),
        ids_below(final(ids)@, model.config.vocab_size),
        final(rng).state == states_after(
            mode,
            model.config.vocab_size as nat,
            old(rng).state,
            max_new_tokens as nat,
        ),
        deterministic::<T>() ==> (final(ids)@, final(rng).state) == generated(
            model@,
            model.config,
            old(ids)@,
            mode,
            old(rng).state,
            max_new_tokens as nat,
        ),
{
    let ghost start = ids@;
    let ghost seed = rng.state;
    let mut i: usize = 0;
    while i < max_new_tokens
        invariant
            i <= max_new_tokens,
            can_generate(*model),
            start.len() > 0 || max_new_tokens == 0,
            ids@.len() == start.len() + i,
            start.is_prefix_of(ids@),
            ids_below(ids@, model.config.vocab_size),
            rng.state == states_after(mode, model.config.vocab_size as nat, seed, i as nat),
            deterministic::<T>() ==> (ids@, rng.state) == generated(
                model@,
                model.config,
                start,
                mode,
                seed,
                i as nat,
            ),
        decreases max_new_tokens - i,
    {
        let next: usize = sample_next(model, ids.as_slice(), mode, rng);
        ids.push(next);
        i += 1;
    }
}

/// The prompt continued by `max_new_tokens` tokens picked in a mode.
pub fn generate_with_mode<T: Float>(
    model: &Model<T>,
    vocab: &Vocab,
    prompt: &str,
    max_new_tokens: usize,
    mode: SamplingMode<T>,
    rng: &mut Lcg,
) -> (r: String)
    requires
        can_generate(*model),
        vocab.wf(),
        vocab.covers(prompt@),
        prompt@.len() > 0 || max_new_tokens == 0,
        ids_below(vocab.encoded(prompt@), model.config.vocab_size),
        model.config.vocab_size <= vocab.id_to_char@.len(),
    ensures
        r@.len() == prompt@.len() + max_new_tokens,
        prompt@.is_prefix_of(r@),
        vocab.covers(r@),
        final(rng).state == states_after(
            mode,
            model.config.vocab_size as nat,
            old(rng).state,
            max_new_tokens as nat,
        ),
        deterministic::<T>() ==> ({
            let g = generated(
                model@,
                model.config,
                vocab.encoded(prompt@),
                mode,
                old(rng).state,
                max_new_tokens as nat,
            );
            r@ == vocab.decoded(g.0) && final(rng).state == g.1
        }),
{
    let mut ids = vocab.encode(prompt);
    let ghost start = ids@;
    extend_ids(model, &mut ids, max_new_tokens, mode, rng);
    let r = vocab.decode(ids.as_slice());
    proof {
        crate::data::law_vocab_round_trip(vocab, prompt@);
        crate::data::law_vocab_ids_round_trip(vocab, ids@);
        assert forall|i: int| 0 <= i < prompt@.len() implies prompt@[i] == r@[i] by {
            assert(start[i] == ids@[i]);
            assert(vocab.decoded(start)[i] == prompt@[i]);
        }
    }
    r
}

/// The prompt continued by the token with the largest logit, again and again.
pub fn generate<T: Float>(
    model: &Model<T>,
    vocab: &Vocab,
    prompt: &str,
    max_new_tokens: usize,
) -> (r: String)
    requires
        can_generate(*model),
        vocab.wf(),
        vocab.covers(prompt@),
        prompt@.len() > 0 || max_new_tokens == 0,
        ids_below(vocab.encoded(prompt@), model.config.vocab_size),
        model.config.vocab_size <= vocab.id_to_char@.len(),
    ensures
        r@.len() == prompt@.len() + max_new_tokens,
        prompt@.is_prefix_of(r@),
        vocab.covers(r@),
        deterministic::<T>() ==> r@ == vocab.decoded(
            generated(
                model@,
                model.config,
                vocab.encoded(prompt@),
                SamplingMode::<T>::Greedy,
                lcg_start(0),
                max_new_tokens as nat,
            ).0,
        ),
{
    let mut unused = Lcg::new(0);
    generate_with_mode(model, vocab, prompt, max_new_tokens, SamplingMode::Greedy, &mut unused)
}

/// The prompt continued by draws from the softmax at a temperature.
pub fn generate_with_temperature<T: Float>(
    model: &Model<T>,
    vocab: &Vocab,
    prompt: &str,
    max_new_tokens: usize,
    temperature: T,
    rng: &mut Lcg,
) -> (r: String)
    requires
        can_generate(*model),
        vocab.wf(),
        vocab.covers(prompt@),
        prompt@.len() > 0 || max_new_tokens == 0,
        ids_below(vocab.encoded(prompt@), model.config.vocab_size),
        model.config.vocab_size <= vocab.id_to_char@.len(),
    ensures
        r@.len() == prompt@.len() + max_new_tokens,
        prompt@.is_prefix_of(r@),
        vocab.covers(r@),
        final(rng).state == states_after(
            SamplingMode::Temperature { temperature },
            model.config.vocab_size as nat,
            old(rng).state,
            max_new_tokens as nat,
        ),
        deterministic::<T>() ==> ({
            let g = generated(
                model@,
                model.config,
                vocab.encoded(prompt@),
                SamplingMode::Temperature { temperature },
                old(rng).state,
                max_new_tokens as nat,
            );
            r@ == vocab.decoded(g.0) && final(rng).state == g.1
        }),
{
    generate_with_mode(
        model,
        vocab,
        prompt,
        max_new_tokens,
        SamplingMode::Temperature { temperature },
        rng,
    )
}

/// Greedy generation draws nothing: it does not depend on the generator.
pub proof fn law_greedy_draws_nothing<T: Float>(
    m: ModelOf<Array<T>>,
    c: ModelConfig,
    ids: Seq<usize>,
    s: u64,
    t: u64,
    n: nat,
)
    ensures
        generated(m, c, ids, SamplingMode::<T>::Greedy, s, n).0 == generated(
            m,
            c,
            ids,
            SamplingMode::<T>::Greedy,
            t,
            n,
        ).0,
        generated(m, c, ids, SamplingMode::<T>::Greedy, s, n).1 == s,
    decreases n,
{
    if n > 0 {
        law_greedy_draws_nothing(m, c, ids, s, t, (n - 1) as nat);
        law_greedy_draws_nothing(m, c, ids, t, s, (n - 1) as nat);
    }
}

/// A ranking is a rearrangement: every place occurs once, with its own item.
pub proof fn law_ranking_complete<T: Float>(s: Seq<T>, n: nat, i: int)
    requires
        n <= s.len(),
        s.len() <= usize::MAX,
        0 <= i < n,
    ensures
        ranked(s, n).len() == n,
        ranked(s, n).contains((i as usize, s[i])),
    decreases n,
{
    let before = ranked(s, (n - 1) as nat);
    let x = s[n - 1];
    lemma_ranked_len(s, (n - 1) as nat);
    lemma_place_bound(before, x, 0);
    let p = rank_place(before, x, 0) as int;
    let all = before.insert(p, ((n - 1) as usize, x));
    if i == n - 1 {
        assert(all[p] == (i as usize, s[i]));
    } else {
        law_ranking_complete(s, (n - 1) as nat, i);
        let k = choose|k: int| 0 <= k < before.len() && before[k] == (i as usize, s[i]);
        if k < p {
            assert(all[k] == before[k]);
        } else {
            assert(all[k + 1] == before[k]);
        }
    }
}

/// A ranking has as many entries as items were ranked.
pub proof fn lemma_ranked_len<T: Float>(s: Seq<T>, n: nat)
    ensures
        ranked(s, n).len() == n,
    decreases n,
{
    if n > 0 {
        lemma_ranked_len(s, (n - 1) as nat);
        lemma_place_bound(ranked(s, (n - 1) as nat), s[n - 1], 0);
    }
}

/// A place in a ranking is one of its places or the one after.
pub proof fn lemma_place_bound<T: Float>(s: Seq<(usize, T)>, x: T, i: nat)
    requires
        i <= s.len(),
    ensures
        i <= rank_place(s, x, i) <= s.len(),
        forall|k: int| i <= k < rank_place(s, x, i) ==> !flt((#[trigger] s[k]).1, x),
        rank_place(s, x, i) < s.len() ==> flt(s[rank_place(s, x, i) as int].1, x),
    decreases s.len() - i,
{
    if i < s.len() && !flt(s[i as int].1, x) {
        lemma_place_bound(s, x, i + 1);
    }
}

/// An entry of a ranking is a place with its own item.
pub proof fn lemma_ranked_item<T: Float>(s: Seq<T>, n: nat, k: int)
    requires
        n <= s.len(),
        s.len() <= usize::MAX,
        0 <= k < n,
    ensures
        ranked(s, n).len() == n,
        ranked(s, n)[k].0 < n,
        ranked(s, n)[k].1 == s[ranked(s, n)[k].0 as int],
    decreases n,
{
    let before = ranked(s, (n - 1) as nat);
    let x = s[n - 1];
    lemma_ranked_len(s, (n - 1) as nat);
    lemma_ranked_len(s, n);
    lemma_place_bound(before, x, 0);
    let p = rank_place(before, x, 0) as int;
    assert(ranked(s, n) == before.insert(p, ((n - 1) as usize, x)));
    if k < p {
        lemma_ranked_item(s, (n - 1) as nat, k);
    } else if k > p {
        lemma_ranked_item(s, (n - 1) as nat, k - 1);
    }
}

/// Any two items compare one way at most, and what lies between two apart is apart from
/// one of them. Numbers that are no NaN are so.
pub open spec fn comparable<T: Float>(s: Seq<T>) -> bool {
    &&& forall|i: int, j: int|
        0 <= i < s.len() && 0 <= j < s.len() && #[trigger] flt(s[i], s[j]) ==> !flt(s[j], s[i])
    &&& forall|i: int, j: int, k: int|
        #![trigger flt(s[i], s[j]), s[k]]
        0 <= i < s.len() && 0 <= j < s.len() && 0 <= k < s.len() && flt(s[i], s[j]) ==> flt(
            s[i],
            s[k],
        ) || flt(s[k], s[j])
}

/// No entry of a ranking is less likely than a later one.
pub proof fn law_ranking_descends<T: Float>(s: Seq<T>, n: nat, i: int, j: int)
    requires
        comparable(s),
        s.len() <= usize::MAX,
        0 <= i < j < n,
        n <= s.len(),
    ensures
        ranked(s, n).len() == n,
        !flt(ranked(s, n)[i].1, ranked(s, n)[j].1),
    decreases n,
{
    let m = (n - 1) as nat;
    let before = ranked(s, m);
    let x = s[n - 1];
    lemma_ranked_len(s, m);
    lemma_ranked_len(s, n);
    lemma_place_bound(before, x, 0);
    let p = rank_place(before, x, 0) as int;
    let all = ranked(s, n);
    assert(all == before.insert(p, (m as usize, x)));
    if j < p {
        law_ranking_descends(s, m, i, j);
    } else if j == p {
        assert(!flt(before[i].1, x));
    } else if i < p {
        law_ranking_descends(s, m, i, j - 1);
    } else if i == p {
        lemma_ranked_item(s, m, p);
        lemma_ranked_item(s, m, j - 1);
        let a = before[p].0 as int;
        let b = before[j - 1].0 as int;
        assert(flt(s[a], s[m as int]));
        if j - 1 > p {
            law_ranking_descends(s, m, p, j - 1);
            assert(!flt(s[a], s[b]));
        }
        if flt(s[m as int], s[b]) {
            assert(flt(s[m as int], s[a]) || flt(s[a], s[b]));
        }
    } else {
        law_ranking_descends(s, m, i - 1, j - 1);
    }
}

/// A draw picks one of the places.
proof fn lemma_picked_place<T: Float>(s: Seq<T>, target: T, i: nat, acc: T)
    requires
        s.len() > 0,
        i <= s.len(),
    ensures
        picked(s, target, i, acc) < s.len(),
    decreases s.len() - i,
{
    if i < s.len() {
        let c = fadd(acc, s[i as int]);
        if !flt(target, c) {
            lemma_picked_place(s, target, i + 1, c);
        }
    }
}

/// The place of the largest item is a place.
proof fn lemma_argmax_place<T: Float>(s: Seq<T>)
    requires
        s.len() > 0,
    ensures
        argmax_of(s) < s.len(),
    decreases s.len(),
{
    if s.len() > 1 {
        lemma_argmax_place(s.drop_last());
    }
}

/// How many of the ranked tokens a mode draws from.
pub open spec fn pool<T: Float>(probs: Seq<T>, mode: SamplingMode<T>) -> nat {
    match mode {
        SamplingMode::TopK { k, temperature } => kept(k, probs.len()),
        SamplingMode::TopP { p, temperature } => mass_cutoff(
            ranked(probs, probs.len()),
            fclamp(p, fbits::<T>(MIN_MASS), fone::<T>()),
            0,
            fzero::<T>(),
        ),
        _ => probs.len(),
    }
}

/// A draw from the first `n` of a ranking picks one of them.
proof fn lemma_pool_place<T: Float>(probs: Seq<T>, n: nat, target: T) -> (i: int)
    requires
        0 < n <= probs.len(),
        probs.len() <= usize::MAX,
    ensures
        0 <= i < n,
        ranked(probs, probs.len()).len() == probs.len(),
        ({
            let list = renormalised(ranked(probs, probs.len()).take(n as int));
            picked_pair(list, target) == ranked(probs, probs.len())[i].0
        }),
{
    let all = ranked(probs, probs.len());
    lemma_ranked_len(probs, probs.len());
    let list = renormalised(all.take(n as int));
    lemma_picked_place(masses(list), target, 0, fzero::<T>());
    picked(masses(list), target, 0, fzero::<T>()) as int
}

/// Drawing from the likeliest `k`, or from the likeliest that reach a mass, gives one of
/// those and never a token that was cut: every token that is likelier than the drawn one
/// stands before it in the ranking, whose first entries alone are drawn from.
pub proof fn law_draw_is_kept<T: Float>(
    logits: Seq<T>,
    mode: SamplingMode<T>,
    temperature: T,
    target: T,
) -> (i: int)
    requires
        0 < logits.len() <= usize::MAX,
        ({
            ||| mode matches SamplingMode::TopK { k, temperature: t } && t == temperature
            ||| mode matches SamplingMode::TopP { p, temperature: t } && t == temperature
        }),
    ensures
        ({
            let probs = tempered_softmax(logits, temperature);
            let all = ranked(probs, probs.len());
            &&& 0 <= i < pool(probs, mode) <= logits.len()
            &&& all.len() == logits.len()
            &&& choice_of(logits, mode, target) == all[i].0
            &&& all[i].0 < logits.len()
            &&& comparable(probs) ==> forall|j: int|
                0 <= j < probs.len() && #[trigger] flt(probs[all[i].0 as int], probs[j])
                    ==> exists|q: int| 0 <= q < i && (#[trigger] all[q]).0 == j
        }),
{
    let probs = tempered_softmax(logits, temperature);
    let all = ranked(probs, probs.len());
    let n = pool(probs, mode);
    lemma_ranked_len(probs, probs.len());
    match mode {
        SamplingMode::TopP { p, temperature } => {
            lemma_cutoff_smallest(
                all,
                fclamp(p, fbits::<T>(MIN_MASS), fone::<T>()),
                0,
            );
        },
        _ => {},
    }
    let i = lemma_pool_place(probs, n, target);
    lemma_ranked_item(probs, probs.len(), i);
    if comparable(probs) {
        let x = all[i].0 as int;
        assert forall|j: int| 0 <= j < probs.len() && #[trigger] flt(probs[x], probs[j]) implies exists|
            q: int,
        |
            0 <= q < i && (#[trigger] all[q]).0 == j by {
            law_ranking_complete(probs, probs.len(), j);
            let q = choose|q: int| 0 <= q < all.len() && all[q] == (j as usize, probs[j]);
            if q > i {
                law_ranking_descends(probs, probs.len(), i, q);
            }
            assert(q != i);
            assert(all[q].0 == j);
        }
    }
    i
}

/// A mode picks one of the tokens.
pub proof fn lemma_choice_place<T: Float>(logits: Seq<T>, mode: SamplingMode<T>, target: T)
    requires
        0 < logits.len() <= usize::MAX,
    ensures
        choice_of(logits, mode, target) < logits.len(),
{
    match mode {
        SamplingMode::Greedy => {
            lemma_argmax_place(logits);
        },
        SamplingMode::Temperature { temperature } => {
            lemma_picked_place(
                tempered_softmax(logits, temperature),
                target,
                0,
                fzero::<T>(),
            );
        },
        SamplingMode::TopK { k, temperature } => {
            let i = law_draw_is_kept(logits, mode, temperature, target);
        },
        SamplingMode::TopP { p, temperature } => {
            let i = law_draw_is_kept(logits, mode, temperature, target);
        },
    }
}

/// The mass of the first `k` of a ranked list, added up from the left onto `acc`.
pub open spec fn mass_onto<T: Float>(s: Seq<(usize, T)>, acc: T, k: nat) -> T
    decreases k,
{
    if k == 0 {
        acc
    } else {
        fadd(mass_onto(s, acc, (k - 1) as nat), s[k - 1].1)
    }
}

/// A mass is not below `p`.
pub open spec fn reaches<T: Float>(p: T, mass: T) -> bool {
    flt(p, mass) || feq(p, mass)
}

/// The same from place `i` on.
proof fn lemma_cutoff_smallest<T: Float>(s: Seq<(usize, T)>, p: T, i: nat)
    requires
        i <= s.len(),
        forall|k: nat| 0 < k <= i ==> !#[trigger] reaches(p, mass_onto(s, fzero::<T>(), k)),
    ensures
        ({
            let c = mass_cutoff(s, p, i, mass_onto(s, fzero::<T>(), i));
            &&& i <= c <= s.len()
            &&& i < s.len() ==> i < c
            &&& forall|k: nat| 0 < k < c ==> !#[trigger] reaches(p, mass_onto(s, fzero::<T>(), k))
            &&& c < s.len() ==> reaches(p, mass_onto(s, fzero::<T>(), c))
        }),
    decreases s.len() - i,
{
    if i < s.len() {
        let z = fzero::<T>();
        let c = fadd(mass_onto(s, z, i), s[i as int].1);
        assert(c == mass_onto(s, z, i + 1));
        if !reaches(p, c) {
            lemma_cutoff_smallest(s, p, i + 1);
        }
    }
}

/// Of a ranked list, the shortest beginning is kept that reaches the mass asked for; all
/// of it where none does.
pub proof fn law_nucleus_is_smallest<T: Float>(s: Seq<(usize, T)>, p: T)
    ensures
        ({
            let c = mass_cutoff(s, p, 0, fzero::<T>());
            &&& c <= s.len()
            &&& s.len() > 0 ==> c > 0
            &&& forall|k: nat| 0 < k < c ==> !#[trigger] reaches(p, mass_onto(s, fzero::<T>(), k))
            &&& c < s.len() ==> reaches(p, mass_onto(s, fzero::<T>(), c))
        }),
{
    lemma_cutoff_smallest(s, p, 0);
}

} // verus!
