//! What a training run does over its steps: what it counts, how its rates go, which windows
//! are evaluated, and what is held out.
use crate::agreement::grid;
use crate::config::{large_sizes, shakespeare_sizes, split_at, tiny_sizes, TrainConfig};
use crate::data::{lcg_start, window_at};
use crate::descent::law_rate_rises_evenly;
use crate::exact::{exact_order, exact_share, shares_out, strict};
use crate::float::{deterministic, fadd, fbits, fcount, findex, flt, fmul, fsum, fzero, Float};
use crate::gpu::{groups, law_grid_covers, plan_of, BitLinearPlan};
use crate::identities::ring;
use crate::linear::inner;
use crate::model::{init_of, lcg_skip, lemma_skip_on};
use crate::ops::{embed_grad_of, embed_of, ids_below};
use crate::step::{cut, layout_ok, mean_of_rows, size_sum, tied_grad_of, StepLayout};
use crate::tensor::{volume, Array, Tensor};
use crate::train::{eval_count, eval_place, eval_stride, window_loss};
use crate::trainer::{
    batch_of, chained, last_samples, run_sizes, started, step_apart, stepped, took_in, windows_of,
    StepReport, Trainer,
};
use vstd::prelude::*;

verus! {

/// The lowest loss of a run is above neither the loss of the step nor the lowest before it,
/// and is one of the two.
pub proof fn law_lowest_loss_is_kept<T: Float>(
    a: Trainer<T>,
    b: Trainer<T>,
    r: StepReport<T>,
    grads: Seq<Tensor<T>>,
    loss: T,
)
    requires
        strict::<T>(),
        deterministic::<T>(),
        took_in(a, b, r, grads, loss),
    ensures
        !flt(loss, b.min_loss),
        !flt(a.min_loss, b.min_loss),
        b.min_loss == loss || b.min_loss == a.min_loss,
        r.min_loss == b.min_loss,
        r.batch_loss == loss,
{
    exact_order(loss, a.min_loss, loss);
    exact_order(a.min_loss, loss, a.min_loss);
}

/// The lowest loss of a run never rises.
pub proof fn law_lowest_loss_never_rises<T: Float>(runs: Seq<Trainer<T>>, k: nat)
    requires
        strict::<T>(),
        deterministic::<T>(),
        chained(runs),
        k < runs.len(),
    ensures
        !flt(runs[0].min_loss, runs[k as int].min_loss),
        runs[k as int].min_loss == runs[0].min_loss || flt(
            runs[k as int].min_loss,
            runs[0].min_loss,
        ),
    decreases k,
{
    let z = runs[0].min_loss;
    exact_order(z, z, z);
    if k > 0 {
        let p = k - 1;
        law_lowest_loss_never_rises(runs, p as nat);
        assert(step_apart(runs, p));
        let r = choose|r: StepReport<T>| #[trigger] stepped(runs[p], runs[p + 1], r);
        assert(stepped(runs[p], runs[p + 1], r));
        exact_order(r.batch_loss, runs[p].min_loss, z);
        exact_order(z, runs[k as int].min_loss, z);
    }
}

/// A run that has made `k` steps has counted them, in the run and in its optimiser, and has
/// drawn `k` batches of windows.
pub proof fn law_run_counts_its_steps<T: Float>(runs: Seq<Trainer<T>>, k: nat)
    requires
        chained(runs),
        k < runs.len(),
    ensures
        runs[k as int].step == runs[0].step + k,
        runs[k as int].opt.state.step_count == runs[0].opt.state.step_count + k,
        runs[k as int].config == runs[0].config,
        runs[k as int].windows == runs[0].windows,
        runs[k as int].val_windows == runs[0].val_windows,
        runs[k as int].initial_loss == runs[0].initial_loss,
        runs[k as int].rng.state == lcg_skip(
            runs[0].rng.state,
            k * (if runs[0].config.batch_size == 0 {
                1nat
            } else {
                runs[0].config.batch_size as nat
            }),
        ),
    decreases k,
{
    let n = if runs[0].config.batch_size == 0 {
        1nat
    } else {
        runs[0].config.batch_size as nat
    };
    if k == 0 {
        assert(0 * n == 0) by (nonlinear_arith);
    } else {
        let p = (k - 1) as nat;
        law_run_counts_its_steps(runs, p);
        assert(step_apart(runs, p as int));
        let r = choose|r: StepReport<T>| #[trigger] stepped(runs[p as int], runs[p as int + 1], r);
        assert(stepped(runs[p as int], runs[p as int + 1], r));
        assert(p * n >= 0) by (nonlinear_arith);
        lemma_skip_on(runs[0].rng.state, p * n, n);
        assert(p * n + n == k * n) by (nonlinear_arith)
            requires
                k == p + 1,
        ;
    }
}

/// The learning rate of a run rises in proportion to the steps made before it and in it,
/// and is the floor once the schedule is over: the length is that of the run unless another
/// is given.
pub proof fn law_run_rates<T: Float>(c: TrainConfig<T>, step: usize)
    requires
        shares_out::<T>(),
        step + c.start_step_offset <= usize::MAX,
    ensures
        step + c.start_step_offset < c.warmup_steps ==> fmul(
            fcount::<T>(c.warmup_steps),
            c.rate_at(step),
        ) == fmul(c.peak_lr, fcount::<T>((step + c.start_step_offset) as usize)),
        c.cosine_total_steps is None && step + c.start_step_offset >= c.warmup_steps && step
            + c.start_step_offset >= c.n_steps ==> c.rate_at(step) == c.floor_lr,
        c.cosine_total_steps is Some && step + c.start_step_offset >= c.warmup_steps && step
            + c.start_step_offset >= c.cosine_total_steps->0 ==> c.rate_at(step) == c.floor_lr,
{
    let at = (step + c.start_step_offset) as usize;
    if at < c.warmup_steps {
        law_rate_rises_evenly(at, c.warmup_steps, c.schedule_len(), c.peak_lr, c.floor_lr);
    }
}

/// The windows of an evaluation are spread evenly over all, from the first on and as far
/// apart as they fit; where as many are asked for as there are, every one is looked at.
pub proof fn law_evaluation_is_spread(n: nat, samples: usize, k: nat)
    requires
        0 < n <= usize::MAX,
        samples > 0,
        k < eval_count(n, samples),
    ensures
        eval_count(n, samples) == if samples <= n {
            samples as nat
        } else {
            n
        },
        eval_place(n, samples, 0) == 0,
        0 <= eval_place(n, samples, k) < n,
        eval_place(n, samples, k + 1) - eval_place(n, samples, k) == eval_place(n, samples, 1) >= 1,
        (eval_place(n, samples, 1) + 1) * eval_count(n, samples) > n,
        samples >= n ==> eval_place(n, samples, k) == k,
{
    let m = eval_count(n, samples);
    let s = eval_stride(n, m);
    vstd::arithmetic::div_mod::lemma_fundamental_div_mod(n as int, m as int);
    vstd::arithmetic::div_mod::lemma_mod_bound(n as int, m as int);
    assert(n / m >= 1) by (nonlinear_arith)
        requires
            n >= m,
            m > 0,
    ;
    assert(s == n / m);
    assert(0 * s == 0 && 1 * s == s) by (nonlinear_arith);
    assert((k + 1) * s == k * s + s) by (nonlinear_arith);
    assert(k * s + s <= m * s) by (nonlinear_arith)
        requires
            k + 1 <= m,
    ;
    assert(k * s >= 0) by (nonlinear_arith);
    assert(m * s == m * (n / m));
    assert((s + 1) * m == m * s + m) by (nonlinear_arith);
    if samples >= n {
        assert(m == n);
        assert(n / n == 1) by (nonlinear_arith)
            requires
                n > 0,
        ;
        assert(k * 1 == k) by (nonlinear_arith);
    }
}

/// The last evaluation looks at five times as many windows, but at no more than there are.
pub proof fn law_last_evaluation_is_larger(samples: usize, n: nat)
    requires
        samples * 5 <= usize::MAX,
        n <= usize::MAX,
    ensures
        last_samples(samples, n) <= n,
        5 * samples <= n ==> last_samples(samples, n) == 5 * samples,
        5 * samples >= n ==> last_samples(samples, n) == n,
{
}

/// A step takes the windows that are asked for, and at least one.
pub proof fn law_batch_has_a_window<T: Float>(c: TrainConfig<T>)
    ensures
        batch_of(c) >= 1,
        c.batch_size >= 1 ==> batch_of(c) == c.batch_size,
        c.batch_size == 0 ==> batch_of(c) == 1,
{
}

/// What is held out of a corpus is its share of the ids, rounded down, from the end: nothing
/// where the share is below zero, and no more than for a share of a half.
pub proof fn law_share_is_held_out<T: Float>(n: usize, share: T)
    requires
        findex::<T>(fmul(fcount::<T>(n), fzero::<T>())) == 0,
    ensures
        flt(share, fzero::<T>()) ==> split_at(n, share) == n,
        ({
            let part = findex::<T>(fmul(fcount::<T>(n), share));
            !flt(share, fzero::<T>()) && !flt(fbits::<T>(0x3F00_0000), share) && part <= n
                ==> split_at(n, share) == n - part
        }),
        ({
            let half = findex::<T>(fmul(fcount::<T>(n), fbits::<T>(0x3F00_0000)));
            !flt(share, fzero::<T>()) && flt(fbits::<T>(0x3F00_0000), share) && half <= n
                ==> split_at(n, share) == n - half
        }),
{
}

/// A run starts with the windows of the ids of its corpus, one id apart, with the loss of the
/// first of them as its first and lowest, with no step made, and with draws of its own, apart
/// from those of the weights.
pub proof fn law_run_starts_over_corpus<T: Float>(
    t: Trainer<T>,
    cfg: TrainConfig<T>,
    text: Seq<char>,
    i: int,
    j: int,
)
    requires
        deterministic::<T>(),
        started(t, cfg, text),
        0 <= i < t.windows@.len(),
        0 <= j < t.model.config.max_seq_len,
    ensures
        t.step == 0,
        t.min_loss == t.initial_loss,
        t.initial_loss == window_loss(t.model, t.windows@[0].0@, t.windows@[0].1@),
        t.windows@[i].0@[j] == t.vocab.encoded(text)[i + j],
        t.windows@[i].1@[j] == t.vocab.encoded(text)[i + j + 1],
        t.windows@.len() + t.model.config.max_seq_len == split_at(text.len() as usize, cfg.val_split),
        t.rng.state == lcg_start(cfg.seed ^ 0xDEAD_BEEF),
        cfg.start_from is None ==> t.model@ == init_of::<T>(t.model.config, cfg.seed),
        cfg.start_from is Some ==> cfg.start_from == Some(t.model),
        t.opt.lr == cfg.peak_lr,
        t.opt.beta1 == cfg.adamw_beta1,
        t.opt.beta2 == cfg.adamw_beta2,
        t.opt.weight_decay == cfg.weight_decay,
        t.opt.eps == fbits::<T>(0x322B_CC77),
        cfg.start_from_optim is None ==> t.opt.state.step_count == 0,
        cfg.start_from_optim is Some ==> cfg.start_from_optim == Some(t.opt.state),
{
    let ids = t.vocab.encoded(text);
    let n = t.windows@.len() + t.model.config.max_seq_len;
    assert(windows_of(t.windows@, ids.take(n), t.model.config.max_seq_len));
    assert((t.windows@[i].0@, t.windows@[i].1@) == window_at(
        ids.take(n),
        t.model.config.max_seq_len as nat,
        i,
    ));
}

/// A run that goes on from nothing has the configured sizes, over as many tokens as the
/// corpus has different characters.
pub proof fn law_fresh_run_has_configured_sizes<T: Float>(c: TrainConfig<T>, text: Seq<char>)
    requires
        c.start_from is None,
        text.to_set().len() <= usize::MAX,
    ensures
        ({
            let m = run_sizes(c, text);
            &&& m.vocab_size == text.to_set().len()
            &&& m.hidden_dim == c.model.hidden_dim
            &&& m.n_heads == c.model.n_heads
            &&& m.head_dim == c.model.head_dim
            &&& m.ffn_dim == c.model.ffn_dim
            &&& m.max_seq_len == c.model.max_seq_len
            &&& m.n_blocks == c.model.n_blocks
        }),
{
}

/// In all configured models the heads make up the width, and their items come in pairs; the
/// larger model for the full corpus is larger in everything but the width of its heads.
pub proof fn law_configured_sizes_fit()
    ensures
        tiny_sizes().n_heads * tiny_sizes().head_dim == tiny_sizes().hidden_dim,
        shakespeare_sizes().n_heads * shakespeare_sizes().head_dim
            == shakespeare_sizes().hidden_dim,
        large_sizes().n_heads * large_sizes().head_dim == large_sizes().hidden_dim,
        tiny_sizes().head_dim % 2 == 0,
        shakespeare_sizes().head_dim % 2 == 0,
        large_sizes().head_dim == shakespeare_sizes().head_dim,
        large_sizes().hidden_dim > shakespeare_sizes().hidden_dim > tiny_sizes().hidden_dim,
        large_sizes().ffn_dim > shakespeare_sizes().ffn_dim > tiny_sizes().ffn_dim,
        large_sizes().n_blocks > shakespeare_sizes().n_blocks > tiny_sizes().n_blocks,
        large_sizes().max_seq_len > shakespeare_sizes().max_seq_len > tiny_sizes().max_seq_len,
{
}

/// A product runs on 8-bit integers exactly where both its strides are multiples of four and
/// every size fits a signed 32-bit argument; it then has a block for every row, and tiles of
/// sixteen that just cover the result.
pub proof fn law_plan_follows_strides(m: usize, k: usize, n: usize)
    ensures
        m > 0x7FFF_FFFF || k > 0x7FFF_FFFF || n > 0x7FFF_FFFF <==> plan_of(m, k, n)
            == BitLinearPlan::TooLarge,
        plan_of(m, k, n) is Int8 <==> m <= 0x7FFF_FFFF && k <= 0x7FFF_FFFF && n <= 0x7FFF_FFFF && k
            % 4 == 0 && n % 4 == 0,
        plan_of(m, k, n) matches BitLinearPlan::Int8 {
            act_blocks,
            weight_blocks,
            scale_cols,
            scale_rows,
        } ==> {
            &&& act_blocks == m
            &&& weight_blocks == 1
            &&& n <= scale_cols * 16 < n + 16
            &&& m <= scale_rows * 16 < m + 16
        },
{
    law_grid_covers(n as int, 16);
    law_grid_covers(m as int, 16);
    if n <= 0x7FFF_FFFF && m <= 0x7FFF_FFFF {
        assert(groups(n as int, 16) <= 0x1000_0000);
        assert(groups(m as int, 16) <= 0x1000_0000);
    }
}

/// The gradient of the tied embedding takes in both of its uses: against any change of it,
/// it weighs what the looked-up rows weigh and what the last projection weighs.
pub proof fn law_tied_gradient_takes_in_both<T: Float>(
    x: Array<T>,
    lm: Array<T>,
    d: Array<T>,
    ids: Seq<usize>,
    v: usize,
    h: usize,
)
    requires
        ring::<T>(),
        0 < ids.len() <= usize::MAX,
        ids_below(ids, v),
        grid(lm, v, h),
        grid(d, v, h),
        grid(x, ids.len() as usize, h),
    ensures
        inner(tied_grad_of(x, lm, ids), d) == fadd(inner(x, embed_of(d, ids)), inner(lm, d)),
{
    crate::slopes::law_lookup_gradient(x, lm, d, ids, v, h);
    crate::slopes::lemma_added_inner(embed_grad_of(x, lm, ids), lm, d);
}

/// The slots of a window's outputs follow each other without a gap: the row losses, the
/// gradient of the last projection, that of the embedded window, and those of the weights.
pub proof fn law_slots_leave_no_gap(
    l: StepLayout,
    seq: usize,
    hidden: usize,
    vocab: usize,
    sizes: Seq<usize>,
    k: int,
)
    requires
        layout_ok(l, seq, hidden, vocab, sizes),
        0 <= k < sizes.len(),
    ensures
        l.loss == 0,
        l.lm_head_w_t == l.loss + seq,
        l.x_pre_blocks == l.lm_head_w_t + vocab * hidden,
        l.weights@.len() == sizes.len(),
        l.weights@[0] == l.x_pre_blocks + seq * hidden,
        k + 1 < sizes.len() ==> l.weights@[k + 1] == l.weights@[k] + sizes[k],
        k + 1 == sizes.len() ==> l.total == l.weights@[k] + sizes[k],
{
    assert(l.weights@[k] == crate::step::head_room(seq, hidden, vocab) + size_sum(sizes, k as nat));
    assert(l.weights@[0] == crate::step::head_room(seq, hidden, vocab) + size_sum(sizes, 0));
    if k + 1 < sizes.len() {
        assert(l.weights@[k + 1] == crate::step::head_room(seq, hidden, vocab) + size_sum(
            sizes,
            (k + 1) as nat,
        ));
    }
}

/// The mean of the row losses times their number is their sum.
pub proof fn law_row_losses_are_averaged<T: Float>(s: Seq<T>)
    requires
        shares_out::<T>(),
        0 < s.len() <= usize::MAX,
    ensures
        fmul(fcount::<T>(s.len() as usize), mean_of_rows(s)) == fsum(s),
{
    exact_share(fsum(s), s.len() as usize);
}

/// A matrix cut out of a buffer has the items from its place on.
pub proof fn law_cut_keeps_items<T>(host: Seq<T>, at: int, dims: Seq<usize>, k: int)
    requires
        0 <= at,
        at + volume(dims) <= host.len(),
        0 <= k < volume(dims),
    ensures
        cut(host, at, dims).data[k] == host[at + k],
        cut(host, at, dims).data.len() == volume(dims),
        cut(host, at, dims).dims == dims,
{
}

} // verus!
