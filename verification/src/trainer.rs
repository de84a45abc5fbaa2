//! A training run from a corpus: what it starts from, one step of it, and the
//! whole of it.
use crate::autograd::arrays;
use crate::config::{split_at, split_point, val_windows_wanted, TrainConfig};
use crate::data::{law_vocab_unique, lcg_start, make_windows, window_at, Lcg, Vocab};
use crate::float::{deterministic, fbits, flt, fzero, Float};
use crate::layout::{items, same_block, same_form};
use crate::model::{
    config_dims, init_of, lcg_skip, lemma_items_shaped, lemma_shaped_items, lemma_skip_on, run_fits,
    shapes_of, sizes_fit, Model, ModelConfig,
};
use crate::ops::ids_below;
use crate::optim::{moments_fit, norm_of, AdamW, OptimState, ADAM_EPSILON};
use crate::tensor::{filled, Tensor};
use crate::train::{
    apply_step, batch_indices, batch_result, compute_batched_grads, drawn_indices, eval_loss,
    drawn_known, eval_count, eval_place, eval_stride, eval_val_perplexity, optimised, pair_known,
    perplexity_of, place_drawn, sampled_known, window_loss,
};
use vstd::prelude::*;

verus! {

/// What sets the order of the drawn windows apart from the weights' draws.
pub const DRAW_SALT: u64 = 0xDEAD_BEEF;

/// A training run.
pub struct Trainer<T> {
    /// What the run was configured with; what it went on from is taken out.
    pub config: TrainConfig<T>,
    pub model: Model<T>,
    pub vocab: Vocab,
    pub opt: AdamW<T>,
    /// Draws the windows of a batch.
    pub rng: Lcg,
    pub windows: Vec<(Vec<usize>, Vec<usize>)>,
    pub val_windows: Vec<(Vec<usize>, Vec<usize>)>,
    /// The loss of the first window before the first step.
    pub initial_loss: T,
    /// The lowest loss seen.
    pub min_loss: T,
    /// How many steps were taken.
    pub step: usize,
}

/// What is known after a step.
pub struct StepReport<T> {
    pub step: usize,
    pub lr: T,
    pub batch_loss: T,
    pub min_loss: T,
    /// The norm of the gradients before clipping.
    pub norm: T,
    /// The loss of the first window, where a status line is due.
    pub anchor_loss: Option<T>,
    /// The held-out loss and perplexity, where an evaluation is due.
    pub val: Option<(T, T)>,
}

/// The sizes a run trains at: those of the weights it goes on from, and else the
/// configured ones over the characters of the corpus.
pub open spec fn run_sizes<T: Float>(cfg: TrainConfig<T>, text: Seq<char>) -> ModelConfig {
    match cfg.start_from {
        Some(m) => m.config,
        None => ModelConfig { vocab_size: text.to_set().len() as usize, ..cfg.model },
    }
}

/// A saved state has one sound moment for each weight of a model of these sizes.
pub open spec fn state_fits<T: Float>(o: OptimState<T>, c: ModelConfig) -> bool {
    &&& o.m@.len() == shapes_of(c).len()
    &&& o.v@.len() == shapes_of(c).len()
    &&& forall|k: int|
        0 <= k < o.m@.len() ==> (#[trigger] o.m@[k]).wf() && o.m@[k].shape@ == shapes_of(c)[k]
    &&& forall|k: int|
        0 <= k < o.v@.len() ==> (#[trigger] o.v@[k]).wf() && o.v@[k].shape@ == shapes_of(c)[k]
}

/// The ids of the window at place `i`, and the one after them, are known at these sizes.
pub open spec fn ids_known(c: ModelConfig, ids: Seq<usize>, i: int) -> bool {
    forall|j: int| i <= j <= i + c.max_seq_len ==> #[trigger] ids[j] < c.vocab_size
}

/// How many held-out windows the last evaluation looks at, of `n`.
pub open spec fn last_samples(samples: usize, n: nat) -> usize {
    if samples * 5 < n {
        (samples * 5) as usize
    } else {
        n as usize
    }
}

/// The windows that an evaluation over some of the `n` ones from place `at` on looks at
/// have known ids.
pub open spec fn eval_known(
    c: ModelConfig,
    ids: Seq<usize>,
    at: int,
    n: nat,
    samples: usize,
) -> bool {
    forall|k: nat|
        k < eval_count(n, samples) ==> ids_known(c, ids, at + #[trigger] eval_place(n, samples, k))
}

/// Every window that a run looks at has ids that are known at these sizes: the first,
/// those that are drawn, and those of its evaluations. The first `n` ids are trained on.
pub open spec fn run_known<T: Float>(
    cfg: TrainConfig<T>,
    c: ModelConfig,
    ids: Seq<usize>,
    n: int,
) -> bool {
    let held = ids.len() - n;
    let w = (n - c.max_seq_len) as usize;
    n > c.max_seq_len ==> {
        &&& ids_known(c, ids, 0)
        &&& forall|d: nat|
            d < cfg.n_steps * batch_of(cfg) ==> ids_known(
                c,
                ids,
                #[trigger] place_drawn(lcg_start(cfg.seed ^ DRAW_SALT), w, d),
            )
        &&& held > c.max_seq_len + 1 && cfg.eval_every > 0 && cfg.val_eval_samples > 0 ==> {
            let m = (held - c.max_seq_len) as nat;
            &&& cfg.n_steps > 0 ==> eval_known(c, ids, n, m, cfg.val_eval_samples)
            &&& eval_known(c, ids, n, m, last_samples(cfg.val_eval_samples, m))
        }
    }
}

/// The vocabulary is that of a text.
pub open spec fn vocab_of(v: Vocab, text: Seq<char>) -> bool {
    v.wf() && forall|x: char| v.knows(x) <==> #[trigger] text.contains(x)
}

/// A corpus of `len` ids is trained on up to id `n`.
pub open spec fn may_split<T: Float>(cfg: TrainConfig<T>, len: nat, n: int) -> bool {
    &&& 0 <= n <= len
    &&& deterministic::<T>() ==> n == split_at(len as usize, cfg.val_split)
}

/// Every window that a run over a corpus looks at has ids that are known at these sizes.
pub open spec fn corpus_known<T: Float>(
    cfg: TrainConfig<T>,
    c: ModelConfig,
    text: Seq<char>,
) -> bool {
    forall|v: Vocab, n: int|
        #![trigger vocab_of(v, text), may_split(cfg, text.len(), n)]
        vocab_of(v, text) && may_split(cfg, text.len(), n) ==> run_known(
            cfg,
            c,
            v.encoded(text),
            n,
        )
}

/// A run can be made over a corpus with this configuration.
pub open spec fn startable<T: Float>(cfg: TrainConfig<T>, text: Seq<char>) -> bool {
    let c = run_sizes(cfg, text);
    &&& match cfg.start_from {
        Some(m) => m.shaped() && corpus_known(cfg, c, text),
        None => sizes_fit(c),
    }
    &&& run_fits(c, c.max_seq_len as nat)
    &&& shapes_of(c).len() <= usize::MAX
    &&& cfg.n_steps + cfg.start_step_offset <= usize::MAX
    &&& cfg.val_eval_samples * 5 <= usize::MAX
    &&& cfg.n_steps > 0 ==> cfg.log_every > 0
    &&& match cfg.start_from_optim {
        Some(o) => state_fits(o, c) && o.step_count + cfg.n_steps <= u32::MAX,
        None => cfg.n_steps <= u32::MAX,
    }
}

/// The windows are all those of the ids, one place apart.
pub open spec fn windows_of(
    ws: Seq<(Vec<usize>, Vec<usize>)>,
    ids: Seq<usize>,
    seq_len: usize,
) -> bool {
    &&& ws.len() == ids.len() - seq_len
    &&& forall|i: int|
        0 <= i < ws.len() ==> ((#[trigger] ws[i]).0@, ws[i].1@) == window_at(
            ids,
            seq_len as nat,
            i,
        )
}

/// How many ids are trained on, told from the windows they gave.
pub open spec fn trained_on<T: Float>(t: Trainer<T>) -> int {
    t.windows@.len() + t.model.config.max_seq_len
}

/// The run is one that starts over a corpus with this configuration.
pub open spec fn started<T: Float>(t: Trainer<T>, cfg: TrainConfig<T>, text: Seq<char>) -> bool {
    let ids = t.vocab.encoded(text);
    let c = run_sizes(cfg, text);
    &&& t.config == (TrainConfig { start_from: None, start_from_optim: None, ..cfg })
    &&& t.vocab.wf()
    &&& forall|x: char| t.vocab.knows(x) <==> #[trigger] text.contains(x)
    &&& t.model.config == c
    &&& match cfg.start_from {
        Some(m) => t.model == m,
        None => deterministic::<T>() ==> t.model@ == init_of::<T>(c, cfg.seed),
    }
    &&& trained_on(t) <= ids.len()
    &&& deterministic::<T>() ==> trained_on(t) == split_at(ids.len() as usize, cfg.val_split)
    &&& windows_of(t.windows@, ids.take(trained_on(t)), c.max_seq_len)
    &&& if ids.len() - trained_on(t) > c.max_seq_len + 1 {
        windows_of(t.val_windows@, ids.skip(trained_on(t)), c.max_seq_len)
    } else {
        t.val_windows@.len() == 0
    }
    &&& t.opt.lr == cfg.peak_lr
    &&& t.opt.beta1 == cfg.adamw_beta1
    &&& t.opt.beta2 == cfg.adamw_beta2
    &&& t.opt.weight_decay == cfg.weight_decay
    &&& deterministic::<T>() ==> t.opt.eps == fbits::<T>(ADAM_EPSILON)
    &&& match cfg.start_from_optim {
        Some(o) => t.opt.state == o,
        None => {
            &&& t.opt.state.step_count == 0
            &&& deterministic::<T>() ==> blank(t.opt.state, c)
        },
    }
    &&& t.rng.state == lcg_start(cfg.seed ^ DRAW_SALT)
    &&& t.step == 0
    &&& t.min_loss == t.initial_loss
    &&& deterministic::<T>() ==> t.initial_loss == window_loss(
        t.model,
        t.windows@[0].0@,
        t.windows@[0].1@,
    )
}

/// What is trained on and what is held out do not overlap: every id of a training
/// window, input or target, stands before every id of a held-out window.
pub proof fn law_nothing_held_out_is_trained_on<T: Float>(
    t: Trainer<T>,
    cfg: TrainConfig<T>,
    text: Seq<char>,
    i: int,
    j: int,
)
    requires
        started(t, cfg, text),
        0 <= i < t.windows@.len(),
        0 <= j < t.val_windows@.len(),
    ensures
        ({
            let ids = t.vocab.encoded(text);
            let n = t.model.config.max_seq_len;
            let at = trained_on(t) + j;
            &&& i + n + 1 <= at
            &&& (t.windows@[i].0@, t.windows@[i].1@) == window_at(ids, n as nat, i)
            &&& (t.val_windows@[j].0@, t.val_windows@[j].1@) == window_at(ids, n as nat, at)
        }),
{
    let ids = t.vocab.encoded(text);
    let n = t.model.config.max_seq_len as int;
    let split = trained_on(t);
    let (a, b) = (t.windows@[i], t.val_windows@[j]);
    assert((a.0@, a.1@) == window_at(ids.take(split), n as nat, i));
    assert((b.0@, b.1@) == window_at(ids.skip(split), n as nat, j));
    assert(ids.take(split).subrange(i, i + n) =~= ids.subrange(i, i + n));
    assert(ids.take(split).subrange(i + 1, i + n + 1) =~= ids.subrange(i + 1, i + n + 1));
    assert(ids.skip(split).subrange(j, j + n) =~= ids.subrange(split + j, split + j + n));
    assert(ids.skip(split).subrange(j + 1, j + n + 1) =~= ids.subrange(
        split + j + 1,
        split + j + n + 1,
    ));
}

/// Every moment is zero.
pub open spec fn blank<T: Float>(o: OptimState<T>, c: ModelConfig) -> bool {
    &&& forall|k: int|
        0 <= k < o.m@.len() ==> (#[trigger] o.m@[k])@ == filled(shapes_of(c)[k], fzero::<T>())
    &&& forall|k: int|
        0 <= k < o.v@.len() ==> (#[trigger] o.v@[k])@ == filled(shapes_of(c)[k], fzero::<T>())
}

/// The batch of a run: at least one window.
pub open spec fn batch_of<T: Float>(cfg: TrainConfig<T>) -> nat {
    if cfg.batch_size < 1 {
        1
    } else {
        cfg.batch_size as nat
    }
}

/// What taking in the gradients of a batch makes of a run.
pub open spec fn took_in<T: Float>(
    a: Trainer<T>,
    b: Trainer<T>,
    r: StepReport<T>,
    grads: Seq<Tensor<T>>,
    loss: T,
) -> bool {
    let n = a.val_windows@.len();
    &&& b.config == a.config
    &&& b.vocab == a.vocab
    &&& b.rng == a.rng
    &&& b.windows == a.windows
    &&& b.val_windows == a.val_windows
    &&& b.initial_loss == a.initial_loss
    &&& b.step == a.step + 1
    &&& b.model.config == a.model.config
    &&& b.opt.state.step_count == a.opt.state.step_count + 1
    &&& b.opt.lr == r.lr
    &&& b.opt.beta1 == a.opt.beta1
    &&& b.opt.beta2 == a.opt.beta2
    &&& b.opt.eps == a.opt.eps
    &&& b.opt.weight_decay == a.opt.weight_decay
    &&& r.step == a.step
    &&& r.batch_loss == loss
    &&& r.min_loss == b.min_loss
    &&& r.anchor_loss is Some <==> (a.step % a.config.log_every == 0 || a.step + 1
        == a.config.n_steps)
    &&& r.val is Some <==> (n > 0 && a.config.eval_every > 0 && a.config.val_eval_samples > 0 && (
    a.step % a.config.eval_every == 0 || a.step + 1 == a.config.n_steps))
    &&& deterministic::<T>() ==> {
        &&& r.lr == a.config.rate_at(a.step)
        &&& b.min_loss == if flt(loss, a.min_loss) {
            loss
        } else {
            a.min_loss
        }
        &&& r.norm == norm_of(arrays(grads))
        &&& optimised(
            a.model,
            AdamW { lr: r.lr, ..a.opt },
            arrays(grads),
            a.config.grad_clip,
            b.model,
            b.opt,
        )
        &&& r.anchor_loss matches Some(x) ==> x == window_loss(
            b.model,
            a.windows@[0].0@,
            a.windows@[0].1@,
        )
        &&& r.val matches Some(x) ==> x == perplexity_of(
            b.model,
            a.val_windows@,
            a.config.val_eval_samples,
        )
    }
}

/// What one step makes of a run: windows are drawn, and the mean of their
/// gradients is taken in.
pub open spec fn stepped<T: Float>(a: Trainer<T>, b: Trainer<T>, r: StepReport<T>) -> bool {
    let drawn = Trainer { rng: Lcg { state: lcg_skip(a.rng.state, batch_of(a.config)) }, ..a };
    exists|grads: Seq<Tensor<T>>|
        {
            &&& #[trigger] took_in(drawn, b, r, grads, r.batch_loss)
            &&& moments_fit(grads, a.model)
            &&& deterministic::<T>() ==> batch_result(
                (grads, r.batch_loss),
                a.model,
                a.windows@,
                drawn_indices(a.rng.state, a.windows@.len() as usize, batch_of(a.config)),
            )
        }
}

/// Run `k` and the one after it are a step apart.
pub open spec fn step_apart<T: Float>(runs: Seq<Trainer<T>>, k: int) -> bool {
    exists|r: StepReport<T>| #[trigger] stepped(runs[k], runs[k + 1], r)
}

/// The runs follow each other step by step.
pub open spec fn chained<T: Float>(runs: Seq<Trainer<T>>) -> bool {
    forall|k: int| 0 <= k < runs.len() - 1 ==> #[trigger] step_apart(runs, k)
}

/// A step more makes a chain of runs longer.
proof fn lemma_chained_push<T: Float>(runs: Seq<Trainer<T>>, t: Trainer<T>, r: StepReport<T>)
    requires
        runs.len() > 0,
        chained(runs),
        stepped(runs.last(), t, r),
    ensures
        chained(runs.push(t)),
{
    let next = runs.push(t);
    assert forall|k: int| 0 <= k < next.len() - 1 implies #[trigger] step_apart(next, k) by {
        if k < runs.len() - 1 {
            assert(step_apart(runs, k));
            let q = choose|q: StepReport<T>| #[trigger] stepped(runs[k], runs[k + 1], q);
            assert(next[k] == runs[k] && next[k + 1] == runs[k + 1]);
            assert(stepped(next[k], next[k + 1], q));
        } else {
            assert(stepped(next[k], next[k + 1], r));
        }
    }
}

/// Weights of the same form and shapes are of the configured shapes too.
proof fn lemma_still_shaped<T: Float>(a: Model<T>, b: Model<T>)
    requires
        a.shaped(),
        b.wf(),
        b.config == a.config,
        same_form(b.parts(), a.parts()),
        items(b.parts()).len() == items(a.parts()).len(),
        forall|k: int|
            0 <= k < items(a.parts()).len() ==> (#[trigger] items(b.parts())[k]).shape@ == items(
                a.parts(),
            )[k].shape@,
    ensures
        b.shaped(),
{
    lemma_shaped_items(a);
    let d = config_dims(a.config);
    assert forall|j: int| 0 <= j < b.parts().blocks.len() implies #[trigger] same_block(
        b.parts().blocks[j],
        d.blocks[j],
    ) by {
        assert(same_block(b.parts().blocks[j], a.parts().blocks[j]));
        assert(same_block(a.parts().blocks[j], d.blocks[j]));
    }
    assert forall|k: int| 0 <= k < shapes_of(b.config).len() implies (#[trigger] items(
        b.parts(),
    )[k]).shape@ == shapes_of(b.config)[k] by {
        assert(items(a.parts())[k].shape@ == shapes_of(a.config)[k]);
    }
    lemma_items_shaped(b);
}

/// A vocabulary of the characters of a text has as many as the text has distinct
/// ones.
proof fn lemma_vocab_size(v: Vocab, text: Seq<char>)
    requires
        v.wf(),
        forall|x: char| v.knows(x) <==> #[trigger] text.contains(x),
    ensures
        v.id_to_char@.len() == text.to_set().len(),
{
    let cs = v.id_to_char@;
    assert(cs.no_duplicates());
    cs.unique_seq_to_set();
    assert(cs.to_set() =~= text.to_set()) by {
        assert forall|x: char| cs.contains(x) <==> #[trigger] text.contains(x) by {
            assert(v.knows(x) <==> text.contains(x));
        }
    }
}

/// A window of known ids, no longer than the model takes, is known.
proof fn lemma_pair_known(
    c: ModelConfig,
    ws: Seq<(Vec<usize>, Vec<usize>)>,
    ids: Seq<usize>,
    i: int,
)
    requires
        run_fits(c, c.max_seq_len as nat),
        windows_of(ws, ids, c.max_seq_len),
        0 <= i < ws.len(),
        ids_known(c, ids, i),
    ensures
        pair_known(c, ws[i]),
{
    let n = c.max_seq_len as int;
    assert((ws[i].0@, ws[i].1@) == window_at(ids, n as nat, i));
    assert forall|k: int| 0 <= k < n implies #[trigger] ws[i].0@[k] < c.vocab_size by {
        assert(ws[i].0@[k] == ids[i + k]);
    }
    assert forall|k: int| 0 <= k < n implies #[trigger] ws[i].1@[k] < c.vocab_size by {
        assert(ws[i].1@[k] == ids[i + 1 + k]);
    }
}

/// The windows of an evaluation lie among those there are.
proof fn lemma_eval_place(n: nat, samples: usize, k: nat)
    requires
        n > 0,
        samples > 0,
        k < eval_count(n, samples),
    ensures
        0 <= eval_place(n, samples, k) < n,
{
    let d = eval_count(n, samples);
    let stride = eval_stride(n, d);
    vstd::arithmetic::div_mod::lemma_fundamental_div_mod(n as int, d as int);
    assert(n / d >= 1) by (nonlinear_arith)
        requires
            0 < d <= n,
    ;
    assert(k * stride < n) by (nonlinear_arith)
        requires
            k < d,
            stride >= 1,
            d * stride <= n,
    ;
    assert(0 <= k * stride) by (nonlinear_arith);
}

/// The windows that a run looks at are known, where the ids are.
proof fn lemma_run_known<T: Float>(
    cfg: TrainConfig<T>,
    c: ModelConfig,
    ids: Seq<usize>,
    n: int,
    ws: Seq<(Vec<usize>, Vec<usize>)>,
    vs: Seq<(Vec<usize>, Vec<usize>)>,
)
    requires
        run_known(cfg, c, ids, n),
        run_fits(c, c.max_seq_len as nat),
        c.max_seq_len < n <= ids.len() <= usize::MAX,
        cfg.val_eval_samples * 5 <= usize::MAX,
        windows_of(ws, ids.take(n), c.max_seq_len),
        if ids.len() - n > c.max_seq_len + 1 {
            windows_of(vs, ids.skip(n), c.max_seq_len)
        } else {
            vs.len() == 0
        },
    ensures
        pair_known(c, ws[0]),
        drawn_known(
            c,
            ws,
            lcg_start(cfg.seed ^ DRAW_SALT),
            (cfg.n_steps * batch_of(cfg)) as nat,
        ),
        vs.len() > 0 && cfg.eval_every > 0 && cfg.val_eval_samples > 0 ==> {
            &&& cfg.n_steps > 0 ==> sampled_known(c, vs, cfg.val_eval_samples)
            &&& sampled_known(c, vs, last_samples(cfg.val_eval_samples, vs.len()))
        },
{
    let start = lcg_start(cfg.seed ^ DRAW_SALT);
    let seq = c.max_seq_len as int;
    let head = ids.take(n);
    let tail = ids.skip(n);
    assert(ids_known(c, head, 0)) by {
        assert forall|j: int| 0 <= j <= seq implies #[trigger] head[j] < c.vocab_size by {
            assert(head[j] == ids[j]);
        }
    }
    lemma_pair_known(c, ws, head, 0);
    assert forall|d: nat| d < cfg.n_steps * batch_of(cfg) implies pair_known(
        c,
        ws[#[trigger] place_drawn(start, ws.len() as usize, d)],
    ) by {
        let i = place_drawn(start, ws.len() as usize, d);
        assert(0 <= i < ws.len());
        assert(ids_known(c, ids, i));
        assert forall|j: int| i <= j <= i + seq implies #[trigger] head[j] < c.vocab_size by {
            assert(head[j] == ids[j]);
        }
        lemma_pair_known(c, ws, head, i);
    }
    if vs.len() > 0 && cfg.eval_every > 0 && cfg.val_eval_samples > 0 {
        if cfg.n_steps > 0 {
            lemma_eval_known(c, ids, n, vs, cfg.val_eval_samples);
        }
        lemma_eval_known(c, ids, n, vs, last_samples(cfg.val_eval_samples, vs.len()));
    }
}

/// The held-out windows that an evaluation looks at are known, where the ids are.
proof fn lemma_eval_known(
    c: ModelConfig,
    ids: Seq<usize>,
    n: int,
    vs: Seq<(Vec<usize>, Vec<usize>)>,
    samples: usize,
)
    requires
        run_fits(c, c.max_seq_len as nat),
        0 <= n <= ids.len(),
        windows_of(vs, ids.skip(n), c.max_seq_len),
        vs.len() > 0,
        samples > 0,
        eval_known(c, ids, n, vs.len(), samples),
    ensures
        sampled_known(c, vs, samples),
{
    let tail = ids.skip(n);
    let seq = c.max_seq_len as int;
    assert forall|k: nat| k < eval_count(vs.len(), samples) implies pair_known(
        c,
        vs[#[trigger] eval_place(vs.len(), samples, k)],
    ) by {
        let i = eval_place(vs.len(), samples, k);
        lemma_eval_place(vs.len(), samples, k);
        assert(ids_known(c, ids, n + i));
        assert forall|j: int| i <= j <= i + seq implies #[trigger] tail[j] < c.vocab_size by {
            assert(tail[j] == ids[n + j]);
        }
        lemma_pair_known(c, vs, tail, i);
    }
}

/// Where every id is known, so are those that a run looks at.
proof fn lemma_all_known<T: Float>(
    cfg: TrainConfig<T>,
    c: ModelConfig,
    ids: Seq<usize>,
    n: int,
)
    requires
        ids_below(ids, c.vocab_size),
        0 <= n <= ids.len() <= usize::MAX,
    ensures
        run_known(cfg, c, ids, n),
{
    let seq = c.max_seq_len as int;
    if n > seq {
        let w = (n - seq) as usize;
        let start = lcg_start(cfg.seed ^ DRAW_SALT);
        assert forall|d: nat| d < cfg.n_steps * batch_of(cfg) implies ids_known(
            c,
            ids,
            #[trigger] place_drawn(start, w, d),
        ) by {
            assert(0 <= place_drawn(start, w, d) < w);
        }
        let held = ids.len() - n;
        if held > seq + 1 && cfg.val_eval_samples > 0 {
            let m = (held - seq) as nat;
            lemma_all_eval_known(c, ids, n, m, cfg.val_eval_samples);
            lemma_all_eval_known(c, ids, n, m, last_samples(cfg.val_eval_samples, m));
        }
    }
}

/// Where every id is known, so are those that an evaluation looks at.
proof fn lemma_all_eval_known(
    c: ModelConfig,
    ids: Seq<usize>,
    at: int,
    n: nat,
    samples: usize,
)
    requires
        ids_below(ids, c.vocab_size),
        0 <= at,
        n > 0,
        at + n + c.max_seq_len <= ids.len(),
    ensures
        eval_known(c, ids, at, n, samples),
{
    assert forall|k: nat| k < eval_count(n, samples) implies ids_known(
        c,
        ids,
        at + #[trigger] eval_place(n, samples, k),
    ) by {
        lemma_eval_place(n, samples, k);
    }
}

/// The windows of the next batch are the first of those ahead, and the rest come after it.
proof fn lemma_ahead(
    c: ModelConfig,
    ws: Seq<(Vec<usize>, Vec<usize>)>,
    s: u64,
    batch: nat,
    left: nat,
)
    requires
        left > 0,
        drawn_known(c, ws, s, left * batch),
    ensures
        drawn_known(c, ws, s, batch),
        drawn_known(c, ws, lcg_skip(s, batch), ((left - 1) * batch) as nat),
{
    assert(left * batch == (left - 1) * batch + batch) by (nonlinear_arith)
        requires
            left > 0,
    ;
    assert(0 <= (left - 1) * batch) by (nonlinear_arith)
        requires
            left > 0,
    ;
    let n = ws.len() as usize;
    assert forall|k: nat| k < (left - 1) * batch implies pair_known(
        c,
        ws[#[trigger] place_drawn(lcg_skip(s, batch), n, k)],
    ) by {
        lemma_skip_on(s, batch, k + 1);
        assert(place_drawn(s, n, batch + k) == place_drawn(lcg_skip(s, batch), n, k));
    }
}

impl<T: Float> Trainer<T> {
    /// The run is sound, but for the windows that are yet to be drawn.
    pub open spec fn sound(self) -> bool {
        &&& self.model.shaped()
        &&& self.opt.fits(self.model)
        &&& self.windows@.len() > 0
        &&& pair_known(self.model.config, self.windows@[0])
        &&& self.val_windows@.len() > 0 && self.config.eval_every > 0
            && self.config.val_eval_samples > 0 ==> {
            &&& self.config.n_steps > 0 ==> sampled_known(
                self.model.config,
                self.val_windows@,
                self.config.val_eval_samples,
            )
            &&& sampled_known(
                self.model.config,
                self.val_windows@,
                last_samples(self.config.val_eval_samples, self.val_windows@.len()),
            )
        }
        &&& shapes_of(self.model.config).len() <= usize::MAX
        &&& self.step <= self.config.n_steps
        &&& self.config.n_steps + self.config.start_step_offset <= usize::MAX
        &&& self.config.val_eval_samples * 5 <= usize::MAX
        &&& self.config.n_steps > 0 ==> self.config.log_every > 0
        &&& self.opt.state.step_count + (self.config.n_steps - self.step) <= u32::MAX
    }

    /// The windows of the next so many batches are known.
    pub open spec fn ahead(self, batches: int) -> bool {
        drawn_known(
            self.model.config,
            self.windows@,
            self.rng.state,
            (batches * batch_of(self.config)) as nat,
        )
    }

    /// The run can go on to its last step.
    pub open spec fn wf(self) -> bool {
        self.sound() && self.ahead(self.config.n_steps - self.step)
    }

    /// The windows of a step were drawn, and the run can go on to its last step.
    pub open spec fn drawn(self) -> bool {
        &&& self.sound()
        &&& self.step < self.config.n_steps
        &&& self.ahead(self.config.n_steps - self.step - 1)
    }

    /// A run over a corpus; nothing where what is trained on is too short for a
    /// window.
    pub fn start(cfg: TrainConfig<T>, text: &str) -> (r: Option<Self>)
        requires
            startable(cfg, text@),
        ensures
            deterministic::<T>() ==> (r is Some <==> split_at(
                text@.len() as usize,
                cfg.val_split,
            ) > run_sizes(cfg, text@).max_seq_len),
            r matches Some(t) ==> t.wf() && started(t, cfg, text@),
    {
        let ghost given = cfg;
        let mut cfg = cfg;
        let vocab = Vocab::from_text(text);
        proof {
            lemma_vocab_size(vocab, text@);
            assert forall|i: int| 0 <= i < text@.len() implies vocab.knows(
                #[trigger] text@[i],
            ) by {
                assert(text@.contains(text@[i]));
            }
        }
        let ids = vocab.encode(text);
        let ghost c = run_sizes(given, text@);
        let loaded = cfg.start_from.take();
        let model = match loaded {
            Some(m) => m,
            None => {
                let mut sizes = cfg.model;
                sizes.vocab_size = vocab.size();
                Model::new(&sizes, cfg.seed)
            },
        };
        proof {
            lemma_shaped_items(model);
        }
        let seq_len: usize = model.config.max_seq_len;
        let train_end: usize = split_point(ids.len(), cfg.val_split);
        if train_end <= seq_len {
            return None;
        }
        let train_ids = vstd::slice::slice_subrange(ids.as_slice(), 0, train_end);
        let val_ids = vstd::slice::slice_subrange(ids.as_slice(), train_end, ids.len());
        let windows = make_windows(train_ids, seq_len);
        let val_windows = if val_windows_wanted(val_ids.len(), seq_len) {
            make_windows(val_ids, seq_len)
        } else {
            Vec::new()
        };
        proof {
            assert(train_ids@ =~= ids@.take(train_end as int));
            assert(val_ids@ =~= ids@.skip(train_end as int));
            assert(vocab_of(vocab, text@) && may_split(given, text@.len(), train_end as int));
            if given.start_from is None {
                lemma_all_known(given, c, ids@, train_end as int);
            }
            assert(ids@.len() == ids.len());
            lemma_run_known(given, c, ids@, train_end as int, windows@, val_windows@);
        }
        let mut opt = AdamW::new_for(&model, cfg.peak_lr);
        opt.beta1 = cfg.adamw_beta1;
        opt.beta2 = cfg.adamw_beta2;
        opt.weight_decay = cfg.weight_decay;
        match cfg.start_from_optim.take() {
            Some(state) => {
                opt.restore(state);
            },
            None => {},
        }
        let initial_loss = eval_loss(&model, windows[0].0.as_slice(), windows[0].1.as_slice());
        let rng = Lcg::new(cfg.seed ^ DRAW_SALT);
        Some(
            Trainer {
                config: cfg,
                model,
                vocab,
                opt,
                rng,
                windows,
                val_windows,
                initial_loss,
                min_loss: initial_loss,
                step: 0,
            },
        )
    }

    /// Draws the windows of the next batch.
    pub fn draw(&mut self) -> (r: Vec<usize>)
        requires
            old(self).wf(),
            old(self).step < old(self).config.n_steps,
        ensures
            final(self).drawn(),
            forall|k: int|
                0 <= k < r@.len() ==> pair_known(
                    old(self).model.config,
                    old(self).windows@[#[trigger] r@[k] as int],
                ),
            *final(self) == (Trainer {
                rng: Lcg { state: lcg_skip(old(self).rng.state, batch_of(old(self).config)) },
                ..*old(self)
            }),
            r@ == drawn_indices(
                old(self).rng.state,
                old(self).windows@.len() as usize,
                batch_of(old(self).config),
            ),
            ids_below(r@, old(self).windows@.len() as usize),
    {
        let n: usize = self.windows.len();
        let batch: usize = if self.config.batch_size < 1 {
            1
        } else {
            self.config.batch_size
        };
        let ghost before = *self;
        let r = batch_indices(&mut self.rng, n, batch);
        proof {
            let s = before.rng.state;
            lemma_ahead(
                before.model.config,
                before.windows@,
                s,
                batch as nat,
                (before.config.n_steps - before.step) as nat,
            );
            assert forall|k: int| 0 <= k < r@.len() implies pair_known(
                before.model.config,
                before.windows@[#[trigger] r@[k] as int],
            ) by {
                let at = place_drawn(s, before.windows@.len() as usize, k as nat);
                assert(at == r@[k]);
                assert(pair_known(before.model.config, before.windows@[at]));
            }
        }
        r
    }

    /// Takes in the gradients of a batch.
    pub fn take_in(&mut self, grads: Vec<Tensor<T>>, loss: T) -> (r: StepReport<T>)
        requires
            old(self).drawn(),
            moments_fit(grads@, old(self).model),
        ensures
            final(self).wf(),
            took_in(*old(self), *final(self), r, grads@, loss),
    {
        let ghost before = *self;
        let ghost given = grads@;
        proof {
            lemma_shaped_items(self.model);
        }
        let lr = self.config.lr_at(self.step);
        if loss.below(self.min_loss) {
            self.min_loss = loss;
        }
        let mut grads = grads;
        let norm = apply_step(&mut self.model, &mut self.opt, &mut grads, lr, self.config.grad_clip);
        proof {
            lemma_still_shaped(before.model, self.model);
        }
        let step: usize = self.step;
        let anchor_loss = if self.config.log_due(step) {
            let w = &self.windows[0];
            Some(eval_loss(&self.model, w.0.as_slice(), w.1.as_slice()))
        } else {
            None
        };
        let val = if self.config.eval_due(step, self.val_windows.len()) {
            Some(eval_val_perplexity(&self.model, &self.val_windows, self.config.val_eval_samples))
        } else {
            None
        };
        self.step = step + 1;
        StepReport { step, lr, batch_loss: loss, min_loss: self.min_loss, norm, anchor_loss, val }
    }

    /// Takes one step: draws windows and takes in the mean of their gradients.
    pub fn train_step(&mut self) -> (r: StepReport<T>)
        requires
            old(self).wf(),
            old(self).step < old(self).config.n_steps,
        ensures
            final(self).wf(),
            stepped(*old(self), *final(self), r),
    {
        let ghost before = *self;
        let batch: usize = if self.config.batch_size < 1 {
            1
        } else {
            self.config.batch_size
        };
        proof {
            lemma_ahead(
                before.model.config,
                before.windows@,
                before.rng.state,
                batch as nat,
                (before.config.n_steps - before.step) as nat,
            );
        }
        let (grads, loss) = compute_batched_grads(
            &self.model,
            &self.windows,
            &mut self.rng,
            batch,
        );
        let ghost gs = grads@;
        let ghost drawn = *self;
        proof {
            assert(drawn == Trainer {
                rng: Lcg { state: lcg_skip(before.rng.state, batch_of(before.config)) },
                ..before
            });
        }
        let r = self.take_in(grads, loss);
        proof {
            assert(took_in(drawn, *self, r, gs, r.batch_loss));
        }
        r
    }

    /// The held-out loss and perplexity at the end of a run, over more windows
    /// than before; nothing where the run has no evaluation.
    pub fn final_eval(&self) -> (r: Option<(T, T)>)
        requires
            self.sound(),
        ensures
            r is Some <==> (self.val_windows@.len() > 0 && self.config.eval_every > 0
                && self.config.val_eval_samples > 0),
            deterministic::<T>() ==> (r matches Some(x) ==> x == perplexity_of(
                self.model,
                self.val_windows@,
                if self.config.val_eval_samples * 5 < self.val_windows@.len() {
                    (self.config.val_eval_samples * 5) as usize
                } else {
                    self.val_windows@.len() as usize
                },
            )),
    {
        let n: usize = self.val_windows.len();
        if self.config.eval_enabled(n) {
            let samples: usize = self.config.final_eval_samples(n);
            Some(eval_val_perplexity(&self.model, &self.val_windows, samples))
        } else {
            None
        }
    }
}

/// Two vocabularies of one text number it alike.
proof fn lemma_encoded_same(a: Vocab, b: Vocab, text: Seq<char>)
    requires
        vocab_of(a, text),
        vocab_of(b, text),
    ensures
        a.encoded(text) == b.encoded(text),
{
    assert forall|x: char| a.knows(x) <==> b.knows(x) by {
        assert(text.contains(x) <==> a.knows(x));
        assert(text.contains(x) <==> b.knows(x));
    }
    law_vocab_unique(&a, &b);
    assert forall|i: int| 0 <= i < text.len() implies #[trigger] a.encoded(text)[i] == b.encoded(
        text,
    )[i] by {
        assert(text.contains(text[i]));
        assert(a.knows(text[i]) && b.knows(text[i]));
        let cs = a.id_to_char@;
        let k = choose|k: int| 0 <= k < cs.len() && cs[k] == text[i];
        assert(a.char_to_id@[a.id_to_char@[k] as u32] == k);
        assert(b.char_to_id@[b.id_to_char@[k] as u32] == k);
    }
    assert(a.encoded(text) =~= b.encoded(text));
}

/// Whether the ids of the window at place `i`, and the one after them, are known.
fn known_at(ids: &[usize], i: usize, c: &ModelConfig) -> (r: bool)
    requires
        i + c.max_seq_len < ids@.len(),
    ensures
        r == ids_known(*c, ids@, i as int),
{
    proof {
        assert(ids@.len() == ids.len());
    }
    let end: usize = i + c.max_seq_len;
    let mut j: usize = i;
    while j <= end
        invariant
            i <= j <= end + 1,
            end == i + c.max_seq_len,
            end < ids@.len() <= usize::MAX,
            forall|k: int| i <= k < j ==> #[trigger] ids@[k] < c.vocab_size,
        decreases end + 1 - j,
    {
        if ids[j] >= c.vocab_size {
            return false;
        }
        j += 1;
    }
    true
}

/// Whether the windows that an evaluation looks at have known ids.
fn known_eval(ids: &[usize], at: usize, n: usize, samples: usize, c: &ModelConfig) -> (r: bool)
    requires
        n > 0,
        samples > 0,
        at + n + c.max_seq_len <= ids@.len(),
    ensures
        r == eval_known(*c, ids@, at as int, n as nat, samples),
{
    proof {
        assert(ids@.len() == ids.len());
    }
    let count: usize = if samples < n {
        samples
    } else {
        n
    };
    let whole: usize = n / count;
    let stride: usize = if whole < 1 {
        1
    } else {
        whole
    };
    let mut k: usize = 0;
    while k < count
        invariant
            k <= count,
            n > 0,
            samples > 0,
            at + n + c.max_seq_len <= ids@.len() <= usize::MAX,
            count == eval_count(n as nat, samples),
            stride == eval_stride(n as nat, count as nat),
            forall|q: nat|
                q < k ==> ids_known(*c, ids@, at + #[trigger] eval_place(n as nat, samples, q)),
        decreases count - k,
    {
        proof {
            lemma_eval_place(n as nat, samples, k as nat);
            assert(eval_place(n as nat, samples, k as nat) == k * stride);
        }
        if !known_at(ids, at + k * stride, c) {
            return false;
        }
        k += 1;
    }
    true
}

/// Whether the windows that a run draws, of `w`, have known ids.
fn known_draws(
    ids: &[usize],
    w: usize,
    seed: u64,
    steps: usize,
    batch: usize,
    c: &ModelConfig,
) -> (r: bool)
    requires
        w > 0,
        w + c.max_seq_len <= ids@.len(),
    ensures
        r == forall|d: nat|
            d < steps * batch ==> ids_known(
                *c,
                ids@,
                #[trigger] place_drawn(lcg_start(seed), w, d),
            ),
{
    proof {
        assert(ids@.len() == ids.len());
    }
    let ghost start = lcg_start(seed);
    let mut rng = Lcg::new(seed);
    let mut i: usize = 0;
    while i < steps
        invariant
            i <= steps,
            w > 0,
            w + c.max_seq_len <= ids@.len() <= usize::MAX,
            start == lcg_start(seed),
            rng.state == lcg_skip(start, (i * batch) as nat),
            forall|d: nat|
                d < i * batch ==> ids_known(*c, ids@, #[trigger] place_drawn(start, w, d)),
        decreases steps - i,
    {
        let ghost done = (i * batch) as nat;
        let mut k: usize = 0;
        proof {
            assert(0 <= i * batch) by (nonlinear_arith);
        }
        while k < batch
            invariant
                i < steps,
                k <= batch,
                w > 0,
                w + c.max_seq_len <= ids@.len() <= usize::MAX,
                start == lcg_start(seed),
                done == i * batch,
                rng.state == lcg_skip(start, (done + k) as nat),
                forall|d: nat|
                    d < done + k ==> ids_known(*c, ids@, #[trigger] place_drawn(start, w, d)),
            decreases batch - k,
        {
            let at: usize = rng.gen_range(w);
            proof {
                assert(at == place_drawn(start, w, (done + k) as nat));
                assert(done + k < steps * batch) by (nonlinear_arith)
                    requires
                        i < steps,
                        k < batch,
                        done == i * batch,
                ;
            }
            if !known_at(ids, at, c) {
                return false;
            }
            k += 1;
        }
        proof {
            assert((i + 1) * batch == i * batch + batch) by (nonlinear_arith);
        }
        i += 1;
    }
    true
}

/// Whether every window that a run over a corpus looks at has ids that are known at
/// these sizes.
pub fn windows_known<T: Float>(cfg: &TrainConfig<T>, c: &ModelConfig, text: &str) -> (r: bool)
    requires
        cfg.val_eval_samples * 5 <= usize::MAX,
    ensures
        deterministic::<T>() ==> r == corpus_known(*cfg, *c, text@),
{
    let vocab = Vocab::from_text(text);
    proof {
        assert forall|i: int| 0 <= i < text@.len() implies vocab.knows(#[trigger] text@[i]) by {
            assert(text@.contains(text@[i]));
        }
    }
    let ids = vocab.encode(text);
    let n: usize = split_point(ids.len(), cfg.val_split);
    let r = run_known_at(cfg, c, ids.as_slice(), n);
    proof {
        if deterministic::<T>() {
            assert(vocab_of(vocab, text@) && may_split(*cfg, text@.len(), n as int));
            if r {
                assert forall|v: Vocab, m: int|
                    #![trigger vocab_of(v, text@), may_split(*cfg, text@.len(), m)]
                    vocab_of(v, text@) && may_split(*cfg, text@.len(), m) implies run_known(
                    *cfg,
                    *c,
                    v.encoded(text@),
                    m,
                ) by {
                    lemma_encoded_same(v, vocab, text@);
                }
            }
        }
    }
    r
}

/// Whether every window that a run looks at has known ids, where the first `n` ids are
/// trained on.
fn run_known_at<T: Float>(cfg: &TrainConfig<T>, c: &ModelConfig, ids: &[usize], n: usize) -> (r:
    bool)
    requires
        n <= ids@.len(),
        cfg.val_eval_samples * 5 <= usize::MAX,
    ensures
        r == run_known(*cfg, *c, ids@, n as int),
{
    let seq: usize = c.max_seq_len;
    if n <= seq {
        return true;
    }
    let batch: usize = if cfg.batch_size < 1 {
        1
    } else {
        cfg.batch_size
    };
    let w: usize = n - seq;
    if !known_at(ids, 0, c) {
        return false;
    }
    if !known_draws(ids, w, cfg.seed ^ DRAW_SALT, cfg.n_steps, batch, c) {
        return false;
    }
    let held: usize = ids.len() - n;
    if val_windows_wanted(held, seq) && cfg.eval_every > 0 && cfg.val_eval_samples > 0 {
        let m: usize = held - seq;
        if cfg.n_steps > 0 && !known_eval(ids, n, m, cfg.val_eval_samples, c) {
            return false;
        }
        let last: usize = cfg.final_eval_samples(m);
        return known_eval(ids, n, m, last, c);
    }
    true
}

/// A whole run: the loss before the first step, the lowest loss seen, the
/// weights, the vocabulary and the optimiser's state; nothing where what is
/// trained on is too short for a window.
pub fn train_bitnet_lm<T: Float>(cfg: TrainConfig<T>, text: &str) -> (r: Option<
    (T, T, Model<T>, Vocab, OptimState<T>),
>)
    requires
        startable(cfg, text@),
    ensures
        deterministic::<T>() ==> (r is Some <==> split_at(text@.len() as usize, cfg.val_split)
            > run_sizes(cfg, text@).max_seq_len),
        r matches Some(x) ==> exists|runs: Seq<Trainer<T>>|
            {
                &&& #[trigger] chained(runs)
                &&& runs.len() == cfg.n_steps + 1
                &&& started(runs[0], cfg, text@)
                &&& x == (
                    runs.last().initial_loss,
                    runs.last().min_loss,
                    runs.last().model,
                    runs.last().vocab,
                    runs.last().opt.state,
                )
            },
{
    match Trainer::start(cfg, text) {
        None => None,
        Some(run) => {
            let mut run = run;
            let ghost mut runs = seq![run];
            while run.step < run.config.n_steps
                invariant
                    run.wf(),
                    run.config.n_steps == cfg.n_steps,
                    runs.len() == run.step + 1,
                    runs.last() == run,
                    started(runs[0], cfg, text@),
                    chained(runs),
                decreases run.config.n_steps - run.step,
            {
                let report = run.train_step();
                proof {
                    lemma_chained_push(runs, run, report);
                    runs = runs.push(run);
                }
            }
            proof {
                assert(chained(runs));
            }
            Some((run.initial_loss, run.min_loss, run.model, run.vocab, run.opt.state))
        },
    }
}

} // verus!
