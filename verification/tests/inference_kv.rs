//! Generation with cached keys and values.
use bitnet::autograd::Tape;
use bitnet::cli::SampleMode;
use bitnet::data::{Lcg, Vocab, TINY_CORPUS};
use bitnet::float::Float;
use bitnet::inference::{generate, generate_with_mode, SamplingMode};
use bitnet::inference_kv::{
    forward_step, generate_with_cache, sample_from_logits, softmax_1d, KVCache,
};
use bitnet::model::{Model, ModelConfig};
use bitnet::samples::{pass_mode, sample_prompt, SAMPLE_TOKENS};

/// A 32-bit float that keeps a single NaN.
#[derive(Clone, Copy, Debug, PartialEq, PartialOrd)]
struct F(f32);

/// Wraps a number, with one pattern for NaN.
fn f(x: f32) -> F {
    if x.is_nan() {
        F(f32::NAN)
    } else {
        F(x)
    }
}

impl Float for F {
    fn from_bits(bits: u32) -> F {
        f(f32::from_bits(bits))
    }

    fn to_bits(self) -> u32 {
        self.0.to_bits()
    }

    fn from_count(n: usize) -> F {
        F(n as f32)
    }

    fn from_i8(n: i8) -> F {
        F(n as f32)
    }

    fn to_i8(self) -> i8 {
        self.0 as i8
    }

    fn to_count(self) -> usize {
        self.0 as usize
    }

    fn plus(self, other: F) -> F {
        f(self.0 + other.0)
    }

    fn minus(self, other: F) -> F {
        f(self.0 - other.0)
    }

    fn times(self, other: F) -> F {
        f(self.0 * other.0)
    }

    fn over(self, other: F) -> F {
        f(self.0 / other.0)
    }

    fn pow(self, other: F) -> F {
        f(self.0.powf(other.0))
    }

    fn negate(self) -> F {
        f(-self.0)
    }

    fn abs(self) -> F {
        f(self.0.abs())
    }

    fn round(self) -> F {
        f(self.0.round())
    }

    fn exp(self) -> F {
        f(self.0.exp())
    }

    fn ln(self) -> F {
        f(self.0.ln())
    }

    fn sqrt(self) -> F {
        f(self.0.sqrt())
    }

    fn sin(self) -> F {
        f(self.0.sin())
    }

    fn cos(self) -> F {
        f(self.0.cos())
    }

    fn below(self, other: F) -> bool {
        self.0 < other.0
    }

    fn same(self, other: F) -> bool {
        self.0 == other.0
    }
}

fn tiny_model_config() -> ModelConfig {
    ModelConfig {
        vocab_size: 8,
        hidden_dim: 8,
        n_heads: 2,
        head_dim: 4,
        ffn_dim: 16,
        max_seq_len: 8,
        n_blocks: 2,
    }
}

fn last_largest(v: &[f32]) -> usize {
    let mut best: usize = 0;
    for i in 1..v.len() {
        if v[i] >= v[best] {
            best = i;
        }
    }
    best
}

#[test]
fn forward_step_returns_logits_with_correct_shape() {
    let cfg = tiny_model_config();
    let model = Model::<F>::new(&cfg, 7);
    let mut cache = KVCache::new(&model);
    let logits = forward_step(&model, 3, 0, &mut cache);
    assert_eq!(logits.len(), cfg.vocab_size);
    for (i, v) in logits.iter().enumerate() {
        let v = v.0;
        assert!(v.is_finite(), "logit[{}] = {} not finite", i, v);
    }
    assert_eq!(cache.seq_pos, 1);
    for b in &cache.blocks {
        for h in &b.heads {
            assert_eq!(h.k.shape, vec![1, cfg.head_dim]);
            assert_eq!(h.v.shape, vec![1, cfg.head_dim]);
        }
    }
}

#[test]
fn forward_step_grows_cache_one_row_per_call() {
    let cfg = tiny_model_config();
    let model = Model::<F>::new(&cfg, 11);
    let mut cache = KVCache::new(&model);
    for pos in 0..5 {
        forward_step(&model, pos % cfg.vocab_size, pos, &mut cache);
    }
    assert_eq!(cache.seq_pos, 5);
    for b in &cache.blocks {
        for h in &b.heads {
            assert_eq!(h.k.shape, vec![5, cfg.head_dim]);
            assert_eq!(h.v.shape, vec![5, cfg.head_dim]);
        }
    }
}

#[test]
fn cached_forward_matches_var_forward_to_within_floating_point_drift() {
    let cfg = tiny_model_config();
    let model = Model::<F>::new(&cfg, 13);
    let ids: Vec<usize> = vec![1, 5, 2, 7];

    let mut tape = Tape::<F>::new();
    let leaves = model.register_leaves(&mut tape);
    let var_logits = model.forward(&mut tape, &leaves, &ids).value(&tape);
    let last_row_off = (ids.len() - 1) * cfg.vocab_size;
    let var_last: Vec<f32> =
        var_logits.data[last_row_off..last_row_off + cfg.vocab_size]
            .iter()
            .map(|v| v.0)
            .collect();

    let mut cache = KVCache::new(&model);
    let mut kv_logits: Vec<f32> = Vec::new();
    for (pos, &id) in ids.iter().enumerate() {
        kv_logits = forward_step(&model, id, pos, &mut cache)
            .iter()
            .map(|v| v.0)
            .collect();
    }

    let var_argmax = last_largest(&var_last);
    let kv_argmax = last_largest(&kv_logits);
    assert_eq!(
        var_argmax, kv_argmax,
        "cached vs Var argmax disagree: kv = {:?}, var = {:?}",
        kv_logits, var_last
    );

    for (i, (kv, vr)) in kv_logits.iter().zip(&var_last).enumerate() {
        let diff = (kv - vr).abs();
        assert!(
            diff < 1e-3 + 1e-3 * vr.abs(),
            "logit drift at idx {}: kv = {}, var = {}, diff = {}",
            i,
            kv,
            vr,
            diff
        );
    }
}

#[test]
fn a_row_of_scores_becomes_a_distribution() {
    let p = softmax_1d(&[F(0.0), F(0.0)]);
    assert_eq!(p, vec![F(0.5), F(0.5)]);
}

#[test]
fn sampling_from_logits_honours_the_mode() {
    let logits = [F(0.0), F(5.0), F(1.0)];
    let mut rng = Lcg::new(1);
    assert_eq!(sample_from_logits(&logits, &SamplingMode::Greedy, &mut rng), 1);
    let one = SamplingMode::TopK { k: 1, temperature: F(1.0) };
    for _ in 0..20 {
        assert_eq!(sample_from_logits(&logits, &one, &mut rng), 1);
    }
    let cold = SamplingMode::Temperature { temperature: F(0.001) };
    assert_eq!(sample_from_logits(&logits, &cold, &mut rng), 1);
    let narrow = SamplingMode::TopP { p: F(0.5), temperature: F(1.0) };
    assert_eq!(sample_from_logits(&logits, &narrow, &mut rng), 1);
}

#[test]
fn cached_generation_adds_the_tokens_asked_for() {
    let vocab = Vocab::from_text(TINY_CORPUS);
    let cfg = ModelConfig {
        vocab_size: vocab.size(),
        hidden_dim: 8,
        n_heads: 2,
        head_dim: 4,
        ffn_dim: 16,
        max_seq_len: 16,
        n_blocks: 1,
    };
    let model = Model::<F>::new(&cfg, 42);
    let mut rng = Lcg::new(3);
    let out = generate_with_cache(&model, &vocab, "to ", 5, SamplingMode::Greedy, &mut rng);
    assert_eq!(out.chars().count(), 8);
    assert!(out.starts_with("to "));
}

#[test]
fn later_ids_leave_earlier_logits_alone() {
    let cfg = tiny_model_config();
    let model = Model::<F>::new(&cfg, 13);
    let row = |ids: &[usize], i: usize| -> Vec<f32> {
        let mut tape = Tape::<F>::new();
        let leaves = model.register_leaves(&mut tape);
        let logits = model.forward(&mut tape, &leaves, ids).value(&tape);
        logits.data[i * cfg.vocab_size..(i + 1) * cfg.vocab_size]
            .iter()
            .map(|v| v.0)
            .collect()
    };
    let a = row(&[1, 5, 2, 7], 1);
    let b = row(&[1, 5, 6, 0, 3], 1);
    for (x, y) in a.iter().zip(&b) {
        assert!((x - y).abs() < 1e-6);
    }
}

#[test]
fn every_cached_step_gives_the_row_of_the_whole_pass() {
    let cfg = tiny_model_config();
    let model = Model::<F>::new(&cfg, 29);
    let ids = [3usize, 0, 6, 6, 1];
    let mut tape = Tape::<F>::new();
    let leaves = model.register_leaves(&mut tape);
    let whole = model.forward(&mut tape, &leaves, &ids).value(&tape);
    let mut cache = KVCache::new(&model);
    for (pos, &id) in ids.iter().enumerate() {
        let step = forward_step(&model, id, pos, &mut cache);
        for (j, v) in step.iter().enumerate() {
            let w = whole.data[pos * cfg.vocab_size + j].0;
            assert!((v.0 - w).abs() < 1e-3 + 1e-3 * w.abs());
        }
    }
}

/// A model over the characters of the corpus, with a short context.
fn short_context_model(vocab: &Vocab, seed: u64) -> Model<F> {
    let cfg = ModelConfig {
        vocab_size: vocab.size(),
        hidden_dim: 8,
        n_heads: 2,
        head_dim: 4,
        ffn_dim: 16,
        max_seq_len: 8,
        n_blocks: 2,
    };
    Model::<F>::new(&cfg, seed)
}

/// Asserts that a mode gives the same text with and without a cache, and leaves the
/// generator in the same state.
fn assert_same_text(prompt: &str, n: usize, mode: SamplingMode<F>) {
    let vocab = Vocab::from_text(TINY_CORPUS);
    for seed in [4u64, 21, 99] {
        let model = short_context_model(&vocab, seed);
        let mut a = Lcg::new(seed);
        let mut b = Lcg::new(seed);
        let cached = generate_with_cache(&model, &vocab, prompt, n, mode, &mut a);
        let plain = generate_with_mode(&model, &vocab, prompt, n, mode, &mut b);
        assert_eq!(cached, plain);
        assert_eq!(a.state, b.state);
    }
}

#[test]
fn drawn_text_is_the_same_with_and_without_a_cache() {
    assert_same_text("to", 6, SamplingMode::Temperature { temperature: F(0.8) });
    assert_same_text("to", 6, SamplingMode::TopK { k: 5, temperature: F(0.8) });
    assert_same_text("to", 6, SamplingMode::TopP { p: F(0.9), temperature: F(0.8) });
}

#[test]
fn text_past_the_longest_context_is_the_same_with_and_without_a_cache() {
    assert_same_text("to be", 20, SamplingMode::Greedy);
    assert_same_text("to be", 20, SamplingMode::Temperature { temperature: F(0.8) });
    assert_same_text("to be", 20, SamplingMode::TopK { k: 5, temperature: F(0.8) });
    assert_same_text("to be", 20, SamplingMode::TopP { p: F(0.9), temperature: F(0.8) });
}

#[test]
fn a_prompt_longer_than_the_context_is_cut_to_its_end() {
    assert_same_text("to be or not to be", 5, SamplingMode::Greedy);
    assert_same_text("to be or not to be", 5, SamplingMode::TopK { k: 3, temperature: F(1.0) });
}

#[test]
fn no_prompt_starts_greedy_text_with_the_first_token() {
    let vocab = Vocab::from_text(TINY_CORPUS);
    let model = short_context_model(&vocab, 4);
    let mut rng = Lcg::new(1);
    let text = generate_with_cache(&model, &vocab, "", 3, SamplingMode::Greedy, &mut rng);
    let first = vocab.decode(&[0]);
    assert!(text.starts_with(&first));
    let mut again = Lcg::new(1);
    assert_eq!(
        text,
        generate_with_cache(&model, &vocab, &first, 2, SamplingMode::Greedy, &mut again),
    );
    assert_eq!(generate_with_cache(&model, &vocab, "", 0, SamplingMode::Greedy, &mut rng), "");
}

#[test]
fn a_draw_that_no_sum_passes_falls_on_the_last_kept_token() {
    // The next draw is the largest there is, and ten equal shares add up to less.
    let mut logits = vec![F(0.0); 10];
    logits.push(F(-200.0));
    logits.push(F(-200.0));
    let mut rng = Lcg { state: 0xfb6d10b621535015 };
    let ten = SamplingMode::TopK { k: 10, temperature: F(1.0) };
    assert_eq!(sample_from_logits(&logits, &ten, &mut rng), 9);
    assert_eq!(rng.state >> 40, 0xFF_FFFF);
}

#[test]
fn only_the_likeliest_are_drawn() {
    let logits = [F(0.3), F(2.0), F(-1.0), F(1.9), F(0.1)];
    let two = SamplingMode::TopK { k: 2, temperature: F(1.0) };
    let mut rng = Lcg::new(17);
    let mut drawn = [0usize; 5];
    for _ in 0..200 {
        drawn[sample_from_logits(&logits, &two, &mut rng)] += 1;
    }
    assert!(drawn[1] > 0 && drawn[3] > 0);
    assert_eq!(drawn[0] + drawn[2] + drawn[4], 0);
}

#[test]
fn greedy_text_is_the_same_with_and_without_a_cache() {
    let vocab = Vocab::from_text(TINY_CORPUS);
    let cfg = ModelConfig {
        vocab_size: vocab.size(),
        hidden_dim: 8,
        n_heads: 2,
        head_dim: 4,
        ffn_dim: 16,
        max_seq_len: 16,
        n_blocks: 2,
    };
    let model = Model::<F>::new(&cfg, 4);
    let mut rng = Lcg::new(3);
    let cached = generate_with_cache(&model, &vocab, "to be", 8, SamplingMode::Greedy, &mut rng);
    assert_eq!(cached, generate(&model, &vocab, "to be", 8));
}

#[test]
fn the_cached_pass_gives_the_text_of_its_mode() {
    let vocab = Vocab::from_text(TINY_CORPUS);
    let model = short_context_model(&vocab, 4);
    let (mut a, mut b) = (Lcg::new(8), Lcg::new(8));
    let cached = sample_prompt(&model, &vocab, "to be", SampleMode::KvCache, &mut a);
    let mode = pass_mode::<F>(SampleMode::KvCache);
    let plain = generate_with_mode(&model, &vocab, "to be", SAMPLE_TOKENS, mode, &mut b);
    assert_eq!(cached, plain);
    assert_eq!(a.state, b.state);
}

#[test]
fn a_pass_draws_one_number_for_each_token() {
    let vocab = Vocab::from_text(TINY_CORPUS);
    let model = short_context_model(&vocab, 4);
    for pass in [SampleMode::Greedy, SampleMode::TopK, SampleMode::KvCache] {
        let mut rng = Lcg::new(8);
        sample_prompt(&model, &vocab, "to", pass, &mut rng);
        let mut want = Lcg::new(8);
        if !matches!(pass, SampleMode::Greedy) {
            for _ in 0..SAMPLE_TOKENS {
                want.next_u64();
            }
        }
        assert_eq!(rng.state, want.state);
    }
}
