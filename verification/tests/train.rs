//! Training: regressions, batches, evaluation, the optimiser and whole runs.
use bitnet::config::{split_point, val_windows_wanted, TrainConfig};
use bitnet::data::{make_windows, Lcg, Vocab, TINY_CORPUS};
use bitnet::float::Float;
use bitnet::model::{Model, ModelConfig};
use bitnet::optim::{clip_grad_norm_tensors, cosine_lr, AdamW, OptimState};
use bitnet::regression::{
    descend, descent_path, line_points, train_bitlinear_regression, train_linear_regression,
    zero_weight,
};
use bitnet::tensor::Tensor;
use bitnet::train::{
    apply_step, average_grads, batch_indices, compute_batched_grads, compute_grads_for_window,
    demo_step, eval_loss, eval_val_perplexity, line_due, worker_share, DemoLosses,
};
use bitnet::trainer::{train_bitnet_lm, windows_known, Trainer};

/// A 32-bit float that keeps a single NaN.
#[derive(Clone, Copy, Debug, PartialEq, PartialOrd)]
struct F(f32);

/// Wraps a number, with one pattern for NaN.
fn f(x: f32) -> F {
    if x.is_nan() {
        F(f32::NAN)
    } else {
        F(x)
    }
}

impl Float for F {
    fn from_bits(bits: u32) -> F {
        f(f32::from_bits(bits))
    }

    fn to_bits(self) -> u32 {
        self.0.to_bits()
    }

    fn from_count(n: usize) -> F {
        F(n as f32)
    }

    fn from_i8(n: i8) -> F {
        F(n as f32)
    }

    fn to_i8(self) -> i8 {
        self.0 as i8
    }

    fn to_count(self) -> usize {
        self.0 as usize
    }

    fn plus(self, other: F) -> F {
        f(self.0 + other.0)
    }

    fn minus(self, other: F) -> F {
        f(self.0 - other.0)
    }

    fn times(self, other: F) -> F {
        f(self.0 * other.0)
    }

    fn over(self, other: F) -> F {
        f(self.0 / other.0)
    }

    fn pow(self, other: F) -> F {
        f(self.0.powf(other.0))
    }

    fn negate(self) -> F {
        f(-self.0)
    }

    fn abs(self) -> F {
        f(self.0.abs())
    }

    fn round(self) -> F {
        f(self.0.round())
    }

    fn exp(self) -> F {
        f(self.0.exp())
    }

    fn ln(self) -> F {
        f(self.0.ln())
    }

    fn sqrt(self) -> F {
        f(self.0.sqrt())
    }

    fn sin(self) -> F {
        f(self.0.sin())
    }

    fn cos(self) -> F {
        f(self.0.cos())
    }

    fn below(self, other: F) -> bool {
        self.0 < other.0
    }

    fn same(self, other: F) -> bool {
        self.0 == other.0
    }
}

#[test]
fn training_drives_loss_down_and_w_to_target() {
    let (initial, finalv, w) = train_linear_regression(200, F(0.05));
    let (initial, finalv, w) = (initial.0, finalv.0, w.0);

    assert!(
        finalv < initial * 0.01,
        "loss did not drop enough: initial = {}, final = {}",
        initial,
        finalv
    );

    assert!(
        (w - 2.0).abs() < 1e-3,
        "w did not converge: got {}, expected ≈ 2.0",
        w
    );
}

#[test]
fn bitlinear_training_drives_loss_down_through_ste() {
    let (initial, final_, w) = train_bitlinear_regression(500, F(0.05));
    let (initial, final_) = (initial.0, final_.0);
    let w: Vec<f32> = w.iter().map(|v| v.0).collect();

    assert!(
        final_ < initial * 0.01,
        "BitLinear loss did not drop enough: initial = {}, final = {}",
        initial,
        final_
    );

    assert!(
        (w[0] - 2.0).abs() < 0.5,
        "w[0] did not converge: got {}, expected ≈ +2.0",
        w[0]
    );
    assert!(
        (w[1] + 2.0).abs() < 0.5,
        "w[1] did not converge: got {}, expected ≈ −2.0",
        w[1]
    );
}

#[test]
fn bitnet_lm_training_drives_loss_down_substantially() {
    let mut cfg = TrainConfig::<F>::tiny_demo();
    cfg.n_steps = 200;
    cfg.log_every = usize::MAX; // suppress per-step prints inside the test
    let (initial, min_loss, _model, _vocab, _optim) = train_bitnet_lm(cfg, TINY_CORPUS).unwrap();
    let (initial, min_loss) = (initial.0, min_loss.0);
    assert!(
        min_loss < initial * 0.7,
        "BitNet LM did not improve enough: initial = {}, min seen = {}, ratio = {:.3}",
        initial,
        min_loss,
        min_loss / initial
    );
}

#[test]
fn eval_val_perplexity_returns_sensible_values() {

    let vocab = Vocab::from_text(TINY_CORPUS);
    let ids = vocab.encode(TINY_CORPUS);
    let cfg = ModelConfig {
        vocab_size: vocab.size(),
        hidden_dim: 8,
        n_heads: 2,
        head_dim: 4,
        ffn_dim: 16,
        max_seq_len: 8,
        n_blocks: 1,
    };
    let model = Model::<F>::new(&cfg, 42);
    let val_windows = make_windows(&ids, cfg.max_seq_len);

    let (val_loss, val_ppl) = eval_val_perplexity(&model, &val_windows, 16);
    let (val_loss, val_ppl) = (val_loss.0, val_ppl.0);

    assert!(val_loss.is_finite(), "val_loss not finite: {}", val_loss);
    assert!(val_ppl.is_finite(), "val_ppl not finite: {}", val_ppl);
    assert!(val_loss >= 0.0, "val_loss negative: {}", val_loss);
    assert!(val_ppl >= 1.0, "val_ppl < 1: {}", val_ppl);
    let baseline = vocab.size() as f32;
    assert!(
        val_ppl < baseline * 2.0,
        "val_ppl {} unreasonably high for vocab {}",
        val_ppl,
        baseline
    );
}

#[test]
fn compute_batched_grads_parallel_matches_serial() {

    let vocab = Vocab::from_text(TINY_CORPUS);
    let ids = vocab.encode(TINY_CORPUS);
    let cfg = ModelConfig {
        vocab_size: vocab.size(),
        hidden_dim: 8,
        n_heads: 2,
        head_dim: 4,
        ffn_dim: 16,
        max_seq_len: 8,
        n_blocks: 1,
    };
    let model = Model::<F>::new(&cfg, 99);
    let windows = make_windows(&ids, cfg.max_seq_len);

    let mut rng_a = Lcg::new(0xBEEFCAFE);
    let (grads_serial, loss_serial) = compute_batched_grads(&model, &windows, &mut rng_a, 4);

    let mut rng_b = Lcg::new(0xBEEFCAFE);
    let drawn = batch_indices(&mut rng_b, windows.len(), 4);
    let share = worker_share(4, 4);
    let mut results = Vec::new();
    for part in drawn.chunks(share) {
        for &i in part {
            results.push(compute_grads_for_window(&model, &windows[i].0, &windows[i].1));
        }
    }
    let (grads_par, loss_par) = average_grads(&results);

    assert!((loss_serial.0 - loss_par.0).abs() < 1e-3);
    assert_eq!(grads_serial.len(), grads_par.len());
    for (gs, gp) in grads_serial.iter().zip(&grads_par) {
        assert_eq!(gs.shape, gp.shape);
        for (a, b) in gs.data.iter().zip(&gp.data) {
            let (a, b) = (a.0, b.0);
            let diff = (a - b).abs();
            let scale = a.abs().max(b.abs()).max(1e-6);
            assert!(
                diff / scale < 1e-3,
                "parallel vs serial drift {} / {} = {}",
                diff,
                scale,
                diff / scale
            );
        }
    }
}

#[test]
fn batched_training_reduces_loss() {
    let mut cfg = TrainConfig::<F>::tiny_demo();
    cfg.n_steps = 200;
    cfg.log_every = usize::MAX;
    cfg.batch_size = 4;
    cfg.n_workers = 1; // serial for determinism in CI
    let (initial, min_loss, _model, _vocab, _optim) = train_bitnet_lm(cfg, TINY_CORPUS).unwrap();
    let (initial, min_loss) = (initial.0, min_loss.0);
    assert!(
        min_loss < initial * 0.7,
        "batched training did not reduce loss enough: initial = {}, min = {}, ratio = {:.3}",
        initial,
        min_loss,
        min_loss / initial
    );
}

#[test]
fn eval_val_perplexity_handles_empty_inputs() {
    let cfg = ModelConfig {
        vocab_size: 4,
        hidden_dim: 4,
        n_heads: 2,
        head_dim: 2,
        ffn_dim: 8,
        max_seq_len: 4,
        n_blocks: 1,
    };
    let model = Model::<F>::new(&cfg, 0);

    let (loss_a, ppl_a) = eval_val_perplexity(&model, &Vec::new(), 8);
    assert!(loss_a.0.is_nan(), "expected NaN val_loss for empty windows");
    assert!(ppl_a.0.is_nan(), "expected NaN val_ppl for empty windows");

    let dummy = vec![(vec![0_usize; 4], vec![1_usize; 4])];
    let (loss_b, ppl_b) = eval_val_perplexity(&model, &dummy, 0);
    assert!(loss_b.0.is_nan(), "expected NaN val_loss for n_samples=0");
    assert!(ppl_b.0.is_nan(), "expected NaN val_ppl for n_samples=0");
}

fn tensor(data: Vec<f32>, shape: Vec<usize>) -> Tensor<F> {
    Tensor::from_vec(data.into_iter().map(f).collect(), shape)
}

#[test]
fn clipping_scales_all_gradients_together() {
    let mut grads = vec![tensor(vec![3.0], vec![1]), tensor(vec![4.0], vec![1])];
    let norm = clip_grad_norm_tensors(&mut grads, F(10.0));
    assert_eq!(norm.0, 5.0);
    assert_eq!(grads[0].data[0].0, 3.0);
    let norm = clip_grad_norm_tensors(&mut grads, F(1.0));
    assert_eq!(norm.0, 5.0);
    assert!((grads[0].data[0].0 - 0.6).abs() < 1e-5);
    assert!((grads[1].data[0].0 - 0.8).abs() < 1e-5);
}

#[test]
fn the_rate_warms_up_and_then_falls_to_its_floor() {
    let rate = |step: usize| cosine_lr(step, 10, 110, F(1.0), F(0.1)).0;
    assert!((rate(4) - 0.5).abs() < 0.11);
    assert!(rate(0) <= rate(5) && rate(5) <= rate(9));
    assert!((rate(10) - 1.0).abs() < 1e-6);
    assert!((rate(60) - 0.55).abs() < 1e-5);
    assert_eq!(rate(110), 0.1);
    assert_eq!(rate(500), 0.1);
}

#[test]
fn the_first_optimiser_step_has_the_size_of_the_rate() {
    let cfg = ModelConfig {
        vocab_size: 2,
        hidden_dim: 2,
        n_heads: 1,
        head_dim: 2,
        ffn_dim: 2,
        max_seq_len: 2,
        n_blocks: 1,
    };
    let mut model = Model::<F>::new(&cfg, 1);
    let mut opt = AdamW::new_for(&model, F(0.01));
    opt.weight_decay = F(0.0);
    let grads: Vec<Tensor<F>> = model
        .params()
        .iter()
        .map(|p| tensor(vec![2.0; p.data.len()], p.shape.clone()))
        .collect();
    let before = model.token_embed.data[0].0;
    opt.step_with_grads(&mut model, &grads);
    assert!((before - model.token_embed.data[0].0 - 0.01).abs() < 1e-5);
    assert_eq!(opt.state.step_count, 1);
}

#[test]
fn held_out_ids_come_from_the_end() {
    assert_eq!(split_point(100, F(0.1)), 90);
    assert_eq!(split_point(100, F(0.0)), 100);
    assert_eq!(split_point(100, F(0.9)), 50);
    assert_eq!(split_point(100, F(-1.0)), 100);
    assert!(val_windows_wanted(10, 8));
    assert!(!val_windows_wanted(9, 8));
}

#[test]
fn a_batch_is_shared_out_among_its_workers() {
    assert_eq!(worker_share(4, 4), 1);
    assert_eq!(worker_share(5, 2), 3);
    assert_eq!(worker_share(3, 8), 1);
    assert_eq!(worker_share(3, 0), 3);
}

#[test]
fn status_and_evaluation_come_when_they_are_due() {
    let mut cfg = TrainConfig::<F>::tiny_demo();
    cfg.n_steps = 10;
    cfg.log_every = 4;
    cfg.eval_every = 5;
    cfg.val_eval_samples = 3;
    let logs: Vec<usize> = (0..10).filter(|s| cfg.log_due(*s)).collect();
    assert_eq!(logs, vec![0, 4, 8, 9]);
    let evals: Vec<usize> = (0..10).filter(|s| cfg.eval_due(*s, 7)).collect();
    assert_eq!(evals, vec![0, 5, 9]);
    assert!(!cfg.eval_due(0, 0));
    assert_eq!(cfg.final_eval_samples(7), 7);
    assert_eq!(cfg.final_eval_samples(100), 15);
}

#[test]
fn resuming_goes_on_with_the_schedule() {
    let model = Model::<F>::new(&TrainConfig::<F>::tiny_demo().model, 1);
    let mut cfg = TrainConfig::<F>::tiny_demo();
    let steps = cfg.n_steps;
    let state = OptimState { step_count: 30, m: Vec::new(), v: Vec::new() };
    cfg.resume(model, Some(state));
    assert_eq!(cfg.start_step_offset, 30);
    assert_eq!(cfg.cosine_total_steps, Some(30 + steps));
    assert!(cfg.start_from.is_some());
}

#[test]
fn a_run_reports_its_steps() {
    let mut cfg = TrainConfig::<F>::tiny_demo();
    cfg.n_steps = 3;
    cfg.log_every = 2;
    cfg.val_split = F(0.2);
    cfg.eval_every = 1;
    cfg.val_eval_samples = 2;
    let mut run = Trainer::start(cfg, TINY_CORPUS).unwrap();
    let first = eval_loss(&run.model, &run.windows[0].0, &run.windows[0].1);
    assert_eq!(run.initial_loss.0, first.0);
    let a = run.train_step();
    let b = run.train_step();
    let c = run.train_step();
    assert_eq!((a.step, b.step, c.step), (0, 1, 2));
    assert!(a.anchor_loss.is_some() && b.anchor_loss.is_none() && c.anchor_loss.is_some());
    assert!(a.val.is_some() && b.val.is_some());
    assert_eq!(run.step, 3);
    assert_eq!(run.opt.state.step_count, 3);
    assert!(run.min_loss.0 <= a.batch_loss.0);
    assert!(run.final_eval().is_some());
}

#[test]
fn a_run_needs_a_window_to_train_on() {
    let cfg = TrainConfig::<F>::tiny_demo();
    assert!(Trainer::start(cfg, "short").is_none());
}

#[test]
fn a_run_goes_on_from_where_another_ended() {
    let mut cfg = TrainConfig::<F>::tiny_demo();
    cfg.n_steps = 2;
    let (_, _, model, _, state) = train_bitnet_lm(cfg, TINY_CORPUS).unwrap();
    let kept = model.token_embed.data.clone();
    let mut next = TrainConfig::<F>::tiny_demo();
    next.n_steps = 1;
    next.resume(model, Some(state));
    let run = Trainer::start(next, TINY_CORPUS).unwrap();
    assert_eq!(run.model.token_embed.data, kept);
    assert_eq!(run.opt.state.step_count, 2);
    assert_eq!(run.config.start_step_offset, 2);
}

#[test]
fn a_resumed_run_has_the_rates_of_a_longer_one() {
    let mut whole = TrainConfig::<F>::tiny_demo();
    let short = TrainConfig::<F>::tiny_demo();
    let mut resumed = TrainConfig::<F>::tiny_demo();
    whole.n_steps = 40 + short.n_steps;
    let model = Model::<F>::new(&short.model, 1);
    let state = OptimState { step_count: 40, m: Vec::new(), v: Vec::new() };
    resumed.resume(model, Some(state));
    for step in 0..short.n_steps {
        assert_eq!(resumed.lr_at(step).0, whole.lr_at(40 + step).0);
    }
}

#[test]
fn held_out_windows_come_after_those_trained_on() {
    let mut cfg = TrainConfig::<F>::tiny_demo();
    cfg.val_split = F(0.25);
    let run = Trainer::start(cfg, TINY_CORPUS).unwrap();
    let ids = run.vocab.encode(TINY_CORPUS);
    let n = run.model.config.max_seq_len;
    let split = run.windows.len() + n;
    assert_eq!(split, split_point(ids.len(), F(0.25)));
    assert_eq!(run.windows.last().unwrap().1, ids[split - n..split].to_vec());
    assert_eq!(run.val_windows[0].0, ids[split..split + n].to_vec());
}

#[test]
fn the_window_and_the_clipped_step_agree_with_a_hand_made_step() {
    let cfg = TrainConfig::<F>::tiny_demo();
    let mut run = Trainer::start(cfg, TINY_CORPUS).unwrap();
    let mut model = run.model.clone();
    let mut opt = AdamW::new_for(&model, run.config.peak_lr);
    opt.beta1 = run.config.adamw_beta1;
    opt.beta2 = run.config.adamw_beta2;
    opt.weight_decay = run.config.weight_decay;
    let mut rng = Lcg::new(run.config.seed ^ 0xDEAD_BEEF);
    let (mut grads, loss) =
        compute_batched_grads(&model, &run.windows, &mut rng, run.config.batch_size);
    let lr = run.config.lr_at(0);
    let norm = apply_step(&mut model, &mut opt, &mut grads, lr, run.config.grad_clip);

    let report = run.train_step();
    assert_eq!(report.batch_loss.0, loss.0);
    assert_eq!(report.norm.0, norm.0);
    assert_eq!(report.lr.0, lr.0);
    assert_eq!(run.model.token_embed.data, model.token_embed.data);
}

#[test]
fn a_descent_lists_its_losses_and_weights() {
    let (xs, ys) = line_points::<F>();
    let (losses, ws) = descent_path(&xs, &ys, &zero_weight(1), 3, F(0.05), false);
    assert_eq!(losses.len(), 3);
    assert_eq!(losses[0].0, 17.5);
    let (first, last, w) = descend(&xs, &ys, zero_weight(1), 3, F(0.05), false);
    assert_eq!(first, losses[0]);
    assert_eq!(last, losses[2]);
    assert_eq!(w.data, ws[2].data);
    let none = descent_path(&xs, &ys, &zero_weight(1), 0, F(0.05), false);
    assert!(none.0.is_empty() && none.1.is_empty());
}

#[test]
fn lines_come_every_so_often_and_at_the_end() {
    let due: Vec<usize> = (0..25).filter(|&s| line_due(s, 25, 10)).collect();
    assert_eq!(due, vec![0, 10, 20, 24]);
}

#[test]
fn a_short_run_keeps_its_first_and_lowest_loss() {
    let cfg = ModelConfig {
        vocab_size: 5,
        hidden_dim: 4,
        n_heads: 1,
        head_dim: 4,
        ffn_dim: 8,
        max_seq_len: 4,
        n_blocks: 1,
    };
    let mut model = Model::<F>::new(&cfg, 3);
    let mut other = Model::<F>::new(&cfg, 3);
    let mut opt = AdamW::new_for(&model, F(0.01));
    let mut same = AdamW::new_for(&other, F(0.01));
    let mut seen = DemoLosses::<F>::new();
    assert!(seen.first.0.is_nan());
    assert_eq!(seen.lowest.0, f32::INFINITY);
    let mut due = Vec::new();
    for (step, loss) in [3.0f32, 1.0, 2.0].iter().enumerate() {
        let (mut grads, _) = compute_grads_for_window(&model, &[0, 1, 2], &[1, 2, 3]);
        let mut copy: Vec<Tensor<F>> = grads.iter().map(|g| g.clone()).collect();
        due.push(demo_step(
            &mut model,
            &mut opt,
            &mut grads,
            F(*loss),
            &mut seen,
            F(0.01),
            F(1.0),
            step,
            3,
        ));
        apply_step(&mut other, &mut same, &mut copy, F(0.01), F(1.0));
    }
    assert_eq!(due, vec![true, false, true]);
    assert_eq!(seen.first, F(3.0));
    assert_eq!(seen.lowest, F(1.0));
    assert!(seen.fell());
    assert_eq!(model.token_embed.data, other.token_embed.data);
}

/// A run that goes on from a model of two ids, over a corpus whose third character comes
/// last of all.
fn narrow_run() -> (TrainConfig<F>, String) {
    let mut cfg = TrainConfig::<F>::tiny_demo();
    let sizes = ModelConfig {
        vocab_size: 2,
        hidden_dim: 4,
        n_heads: 1,
        head_dim: 4,
        ffn_dim: 8,
        max_seq_len: 4,
        n_blocks: 1,
    };
    cfg.start_from = Some(Model::new(&sizes, 5));
    cfg.n_steps = 2;
    cfg.log_every = 1;
    cfg.val_split = F(0.5);
    cfg.eval_every = 0;
    (cfg, "abababababababababab".to_string() + "abababababababababaz")
}

#[test]
fn only_the_windows_that_a_run_looks_at_must_be_known() {
    let (cfg, text) = narrow_run();
    let sizes = cfg.start_from.as_ref().unwrap().config;
    assert_eq!(Vocab::from_text(&text).size(), 3);
    assert!(windows_known(&cfg, &sizes, &text));
    let (first, lowest, model, vocab, state) = train_bitnet_lm(cfg, &text).unwrap();
    assert!(first.0.is_finite() && lowest.0 <= first.0);
    assert_eq!(model.config.vocab_size, 2);
    assert_eq!(vocab.size(), 3);
    assert_eq!(state.step_count, 2);
}

#[test]
fn an_unknown_id_in_a_window_that_is_used_is_found() {
    let (mut cfg, text) = narrow_run();
    let mut sizes = cfg.start_from.as_ref().unwrap().config;
    cfg.eval_every = 1;
    cfg.val_eval_samples = 100;
    assert!(!windows_known(&cfg, &sizes, &text));
    cfg.val_eval_samples = 0;
    assert!(windows_known(&cfg, &sizes, &text));
    sizes.vocab_size = 1;
    assert!(!windows_known(&cfg, &sizes, &text));
    sizes.max_seq_len = 30;
    assert!(windows_known(&cfg, &sizes, &text));
}
