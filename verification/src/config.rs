//! What a training run is configured with, and what follows from it step by step.
use crate::float::{
    clamp, deterministic, fbits, fclamp, fcount, findex, fmul, fzero, Float, ONE, ZERO,
};
use crate::model::{Model, ModelConfig};
use crate::optim::{cosine_lr, scheduled, OptimState, HALF};
use vstd::prelude::*;

verus! {

/// The bit pattern of 0.005.
pub const RATE_5E_3: u32 = 0x3BA3_D70A;

/// The bit pattern of 0.0005.
pub const RATE_5E_4: u32 = 0x3A03_126F;

/// The bit pattern of 0.003.
pub const RATE_3E_3: u32 = 0x3B44_9BA6;

/// The bit pattern of 0.0003.
pub const RATE_3E_4: u32 = 0x399D_4952;

/// The bit pattern of 0.05.
pub const TWENTIETH: u32 = 0x3D4C_CCCD;

/// The bit pattern of 0.1.
pub const TENTH: u32 = 0x3DCC_CCCD;

/// The bit pattern of 0.9.
pub const NINE_TENTHS: u32 = 0x3F66_6666;

/// The bit pattern of 0.95.
pub const NINETEEN_TWENTIETHS: u32 = 0x3F73_3333;

/// The settings of a training run.
pub struct TrainConfig<T> {
    pub n_steps: usize,
    pub peak_lr: T,
    pub floor_lr: T,
    pub warmup_steps: usize,
    pub grad_clip: T,
    pub weight_decay: T,
    pub adamw_beta1: T,
    pub adamw_beta2: T,
    pub seed: u64,
    pub model: ModelConfig,
    /// Where the corpus lies; the built-in lines where it is not said.
    pub corpus_path: Option<String>,
    /// A status line comes every so many steps, and after the last.
    pub log_every: usize,
    /// The share of the corpus that is held out, taken from its end.
    pub val_split: T,
    /// The held-out windows are evaluated every so many steps; never for 0.
    pub eval_every: usize,
    /// How many held-out windows an evaluation looks at.
    pub val_eval_samples: usize,
    /// How many windows one step averages over.
    pub batch_size: usize,
    /// How many threads share a batch.
    pub n_workers: usize,
    /// The weights to go on from.
    pub start_from: Option<Model<T>>,
    /// The optimiser state to go on from.
    pub start_from_optim: Option<OptimState<T>>,
    /// How many steps of the schedule lie behind.
    pub start_step_offset: usize,
    /// The length of the schedule; the number of steps where it is not said.
    pub cosine_total_steps: Option<usize>,
    /// Whether gradients are computed on a graphics processor.
    pub use_cuda_backward: bool,
}

/// The sizes of the demonstration model.
pub open spec fn tiny_sizes() -> ModelConfig {
    ModelConfig {
        vocab_size: 0,
        hidden_dim: 16,
        n_heads: 2,
        head_dim: 8,
        ffn_dim: 32,
        max_seq_len: 16,
        n_blocks: 2,
    }
}

/// The sizes of the model for the full corpus.
pub open spec fn shakespeare_sizes() -> ModelConfig {
    ModelConfig {
        vocab_size: 0,
        hidden_dim: 192,
        n_heads: 12,
        head_dim: 16,
        ffn_dim: 384,
        max_seq_len: 64,
        n_blocks: 6,
    }
}

/// The sizes of the larger model for the full corpus.
pub open spec fn large_sizes() -> ModelConfig {
    ModelConfig {
        vocab_size: 0,
        hidden_dim: 256,
        n_heads: 16,
        head_dim: 16,
        ffn_dim: 1024,
        max_seq_len: 128,
        n_blocks: 8,
    }
}

/// Nothing to go on from: a fresh run of the whole schedule on this machine.
pub open spec fn fresh<T: Float>(c: TrainConfig<T>) -> bool {
    &&& c.start_from is None
    &&& c.start_from_optim is None
    &&& c.start_step_offset == 0
    &&& c.cosine_total_steps is None
    &&& !c.use_cuda_backward
    &&& c.seed == 1337
}

/// The settings common to both runs over the full corpus.
pub open spec fn shakespeare_common<T: Float>(c: TrainConfig<T>) -> bool {
    &&& fresh(c)
    &&& c.n_steps == 10000
    &&& c.log_every == 100
    &&& c.eval_every == 500
    &&& c.val_eval_samples == 100
    &&& c.n_workers == 4
    &&& c.corpus_path is Some && c.corpus_path->0@ == "data/tinyshakespeare.txt"@
    &&& deterministic::<T>() ==> {
        &&& c.peak_lr == fbits::<T>(RATE_3E_3)
        &&& c.floor_lr == fbits::<T>(RATE_3E_4)
        &&& c.grad_clip == fbits::<T>(ONE)
        &&& c.weight_decay == fbits::<T>(TENTH)
        &&& c.adamw_beta1 == fbits::<T>(NINE_TENTHS)
        &&& c.adamw_beta2 == fbits::<T>(NINETEEN_TWENTIETHS)
        &&& c.val_split == fbits::<T>(TENTH)
    }
}

impl<T: Float> TrainConfig<T> {
    /// A small model on the built-in lines.
    pub fn tiny_demo() -> (r: Self)
        ensures
            fresh(r),
            r.n_steps == 300,
            r.warmup_steps == 30,
            r.model == tiny_sizes(),
            r.corpus_path is None,
            r.log_every == 50,
            r.eval_every == 0,
            r.val_eval_samples == 0,
            r.batch_size == 1,
            r.n_workers == 1,
            deterministic::<T>() ==> {
                &&& r.peak_lr == fbits::<T>(RATE_5E_3)
                &&& r.floor_lr == fbits::<T>(RATE_5E_4)
                &&& r.grad_clip == fbits::<T>(ONE)
                &&& r.weight_decay == fbits::<T>(TWENTIETH)
                &&& r.adamw_beta1 == fbits::<T>(NINE_TENTHS)
                &&& r.adamw_beta2 == fbits::<T>(NINETEEN_TWENTIETHS)
                &&& r.val_split == fzero::<T>()
            },
    {
        TrainConfig {
            n_steps: 300,
            peak_lr: T::from_bits(RATE_5E_3),
            floor_lr: T::from_bits(RATE_5E_4),
            warmup_steps: 30,
            grad_clip: T::from_bits(ONE),
            weight_decay: T::from_bits(TWENTIETH),
            adamw_beta1: T::from_bits(NINE_TENTHS),
            adamw_beta2: T::from_bits(NINETEEN_TWENTIETHS),
            seed: 1337,
            model: ModelConfig {
                vocab_size: 0,
                hidden_dim: 16,
                n_heads: 2,
                head_dim: 8,
                ffn_dim: 32,
                max_seq_len: 16,
                n_blocks: 2,
            },
            corpus_path: None,
            log_every: 50,
            val_split: T::from_bits(ZERO),
            eval_every: 0,
            val_eval_samples: 0,
            batch_size: 1,
            n_workers: 1,
            start_from: None,
            start_from_optim: None,
            start_step_offset: 0,
            cosine_total_steps: None,
            use_cuda_backward: false,
        }
    }

    /// The run over the full corpus.
    pub fn shakespeare() -> (r: Self)
        ensures
            shakespeare_common(r),
            r.warmup_steps == 200,
            r.batch_size == 4,
            r.model == shakespeare_sizes(),
    {
        TrainConfig {
            n_steps: 10000,
            peak_lr: T::from_bits(RATE_3E_3),
            floor_lr: T::from_bits(RATE_3E_4),
            warmup_steps: 200,
            grad_clip: T::from_bits(ONE),
            weight_decay: T::from_bits(TENTH),
            adamw_beta1: T::from_bits(NINE_TENTHS),
            adamw_beta2: T::from_bits(NINETEEN_TWENTIETHS),
            seed: 1337,
            model: ModelConfig {
                vocab_size: 0,
                hidden_dim: 192,
                n_heads: 12,
                head_dim: 16,
                ffn_dim: 384,
                max_seq_len: 64,
                n_blocks: 6,
            },
            corpus_path: Some("data/tinyshakespeare.txt".to_owned()),
            log_every: 100,
            val_split: T::from_bits(TENTH),
            eval_every: 500,
            val_eval_samples: 100,
            batch_size: 4,
            n_workers: 4,
            start_from: None,
            start_from_optim: None,
            start_step_offset: 0,
            cosine_total_steps: None,
            use_cuda_backward: false,
        }
    }

    /// The run over the full corpus with the larger model, a larger batch and a
    /// longer warm-up.
    pub fn shakespeare_large() -> (r: Self)
        ensures
            shakespeare_common(r),
            r.warmup_steps == 500,
            r.batch_size == 16,
            r.model == large_sizes(),
    {
        let mut cfg = Self::shakespeare();
        cfg.model = ModelConfig {
            vocab_size: 0,
            hidden_dim: 256,
            n_heads: 16,
            head_dim: 16,
            ffn_dim: 1024,
            max_seq_len: 128,
            n_blocks: 8,
        };
        cfg.batch_size = 16;
        cfg.warmup_steps = 500;
        cfg
    }

    /// The run over the full corpus: the larger model or the smaller, on a
    /// graphics processor or not. A processor shares no batch among threads.
    pub fn for_corpus(large: bool, use_cuda: bool) -> (r: Self)
        ensures
            r.use_cuda_backward == use_cuda,
            r.n_workers == if use_cuda {
                1usize
            } else {
                4usize
            },
            shakespeare_common((TrainConfig { use_cuda_backward: false, n_workers: 4, ..r })),
            r.warmup_steps == if large {
                500usize
            } else {
                200usize
            },
            r.batch_size == if large {
                16usize
            } else {
                4usize
            },
            r.model == if large {
                large_sizes()
            } else {
                shakespeare_sizes()
            },
    {
        let mut cfg = if large {
            Self::shakespeare_large()
        } else {
            Self::shakespeare()
        };
        cfg.use_cuda_backward = use_cuda;
        if use_cuda {
            cfg.n_workers = 1;
        }
        cfg
    }

    /// Goes on from saved weights and, where there is one, a saved optimiser
    /// state, at the place in the schedule where that state was saved.
    pub fn resume(&mut self, model: Model<T>, optim: Option<OptimState<T>>)
        requires
            optim matches Some(o) ==> o.step_count + old(self).n_steps <= usize::MAX,
        ensures
            *final(self) == (TrainConfig {
                start_from: Some(model),
                start_from_optim: optim,
                start_step_offset: match optim {
                    Some(o) => o.step_count as usize,
                    None => old(self).start_step_offset,
                },
                cosine_total_steps: match optim {
                    Some(o) => Some((o.step_count + old(self).n_steps) as usize),
                    None => old(self).cosine_total_steps,
                },
                ..*old(self)
            }),
    {
        self.start_from = Some(model);
        if let Some(state) = &optim {
            let offset: usize = state.step_count as usize;
            self.start_step_offset = offset;
            self.cosine_total_steps = Some(offset + self.n_steps);
        }
        self.start_from_optim = optim;
    }

    /// The length of the schedule.
    pub open spec fn schedule_len(self) -> usize {
        match self.cosine_total_steps {
            Some(n) => n,
            None => self.n_steps,
        }
    }

    /// The rate of a step: that of the schedule at the step's place in it.
    pub open spec fn rate_at(self, step: usize) -> T {
        scheduled(
            (step + self.start_step_offset) as usize,
            self.warmup_steps,
            self.schedule_len(),
            self.peak_lr,
            self.floor_lr,
        )
    }

    /// The learning rate of a step: the schedule goes on across resumed runs.
    pub fn lr_at(&self, step: usize) -> (r: T)
        requires
            step + self.start_step_offset <= usize::MAX,
        ensures
            deterministic::<T>() ==> r == self.rate_at(step),
    {
        let total: usize = match self.cosine_total_steps {
            Some(n) => n,
            None => self.n_steps,
        };
        cosine_lr(
            step + self.start_step_offset,
            self.warmup_steps,
            total,
            self.peak_lr,
            self.floor_lr,
        )
    }

    /// Whether a status line is due after a step.
    pub fn log_due(&self, step: usize) -> (r: bool)
        requires
            self.log_every > 0,
        ensures
            r == (step % self.log_every == 0 || step + 1 == self.n_steps),
    {
        step % self.log_every == 0 || (self.n_steps > 0 && step == self.n_steps - 1)
    }

    /// Whether held-out windows are evaluated at all in a run that has `n` of them.
    pub fn eval_enabled(&self, n: usize) -> (r: bool)
        ensures
            r == (n > 0 && self.eval_every > 0 && self.val_eval_samples > 0),
    {
        n > 0 && self.eval_every > 0 && self.val_eval_samples > 0
    }

    /// Whether an evaluation is due after a step.
    pub fn eval_due(&self, step: usize, n: usize) -> (r: bool)
        ensures
            r == (n > 0 && self.eval_every > 0 && self.val_eval_samples > 0 && (step
                % self.eval_every == 0 || step + 1 == self.n_steps)),
    {
        self.eval_enabled(n) && (step % self.eval_every == 0 || (self.n_steps > 0 && step
            == self.n_steps - 1))
    }

    /// How many held-out windows the last evaluation looks at: five times as
    /// many as the others, and no more than there are.
    pub fn final_eval_samples(&self, n: usize) -> (r: usize)
        requires
            self.val_eval_samples * 5 <= usize::MAX,
        ensures
            r == if self.val_eval_samples * 5 < n {
                self.val_eval_samples * 5
            } else {
                n as int
            },
    {
        let more: usize = self.val_eval_samples * 5;
        if more < n {
            more
        } else {
            n
        }
    }
}

/// A run that goes on from a saved state has, step by step, the rates that a single
/// longer run has from the step on at which the state was saved.
pub proof fn law_resumed_schedule_continues<T: Float>(
    cfg: TrainConfig<T>,
    model: Model<T>,
    state: OptimState<T>,
    step: usize,
)
    requires
        cfg.start_step_offset == 0,
        cfg.cosine_total_steps is None,
        state.step_count + cfg.n_steps <= usize::MAX,
        step < cfg.n_steps,
    ensures
        ({
            let resumed = TrainConfig {
                start_from: Some(model),
                start_from_optim: Some(state),
                start_step_offset: state.step_count as usize,
                cosine_total_steps: Some((state.step_count + cfg.n_steps) as usize),
                ..cfg
            };
            let whole = TrainConfig {
                n_steps: (state.step_count + cfg.n_steps) as usize,
                ..cfg
            };
            resumed.rate_at(step) == whole.rate_at((state.step_count + step) as usize)
        }),
{
}

/// Where the held-out part of `n` ids starts: its share, held between nothing
/// and half, is taken from the end.
pub open spec fn split_at<T: Float>(n: usize, share: T) -> int {
    let held = findex(fmul(fcount::<T>(n), fclamp(share, fzero::<T>(), fbits::<T>(HALF))));
    if held < n {
        n - held
    } else {
        0
    }
}

/// Where the held-out part of `n` ids starts.
pub fn split_point<T: Float>(n: usize, share: T) -> (r: usize)
    ensures
        r <= n,
        deterministic::<T>() ==> r == split_at(n, share),
{
    let kept = clamp(share, T::from_bits(ZERO), T::from_bits(HALF));
    let held: usize = T::from_count(n).times(kept).to_count();
    if held < n {
        n - held
    } else {
        0
    }
}

/// Whether `n` held-out ids make windows of a length that are worth evaluating.
pub fn val_windows_wanted(n: usize, seq_len: usize) -> (r: bool)
    ensures
        r == (n > seq_len + 1),
{
    n > 0 && n - 1 > seq_len
}

} // verus!
