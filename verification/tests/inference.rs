//! Sampling and generation without a cache.
use bitnet::data::{Lcg, Vocab, TINY_CORPUS};
use bitnet::float::Float;
use bitnet::inference::{
    argmax, choose_token, generate, generate_with_mode, generate_with_temperature, pick, rank,
    sample_from_probs, softmax_with_temperature, truncate_top_k, truncate_top_p, SamplingMode,
};
use bitnet::model::{Model, ModelConfig};

/// A 32-bit float that keeps a single NaN.
#[derive(Clone, Copy, Debug, PartialEq, PartialOrd)]
struct F(f32);

/// Wraps a number, with one pattern for NaN.
fn f(x: f32) -> F {
    if x.is_nan() {
        F(f32::NAN)
    } else {
        F(x)
    }
}

impl Float for F {
    fn from_bits(bits: u32) -> F {
        f(f32::from_bits(bits))
    }

    fn to_bits(self) -> u32 {
        self.0.to_bits()
    }

    fn from_count(n: usize) -> F {
        F(n as f32)
    }

    fn from_i8(n: i8) -> F {
        F(n as f32)
    }

    fn to_i8(self) -> i8 {
        self.0 as i8
    }

    fn to_count(self) -> usize {
        self.0 as usize
    }

    fn plus(self, other: F) -> F {
        f(self.0 + other.0)
    }

    fn minus(self, other: F) -> F {
        f(self.0 - other.0)
    }

    fn times(self, other: F) -> F {
        f(self.0 * other.0)
    }

    fn over(self, other: F) -> F {
        f(self.0 / other.0)
    }

    fn pow(self, other: F) -> F {
        f(self.0.powf(other.0))
    }

    fn negate(self) -> F {
        f(-self.0)
    }

    fn abs(self) -> F {
        f(self.0.abs())
    }

    fn round(self) -> F {
        f(self.0.round())
    }

    fn exp(self) -> F {
        f(self.0.exp())
    }

    fn ln(self) -> F {
        f(self.0.ln())
    }

    fn sqrt(self) -> F {
        f(self.0.sqrt())
    }

    fn sin(self) -> F {
        f(self.0.sin())
    }

    fn cos(self) -> F {
        f(self.0.cos())
    }

    fn below(self, other: F) -> bool {
        self.0 < other.0
    }

    fn same(self, other: F) -> bool {
        self.0 == other.0
    }
}

fn small_model() -> (Model<F>, Vocab) {
    let vocab = Vocab::from_text(TINY_CORPUS);
    let cfg = ModelConfig {
        vocab_size: vocab.size(),
        hidden_dim: 8,
        n_heads: 2,
        head_dim: 4,
        ffn_dim: 16,
        max_seq_len: 8,
        n_blocks: 1,
    };
    (Model::new(&cfg, 42), vocab)
}

#[test]
fn generate_produces_correct_length_output() {
    let (model, vocab) = small_model();
    let out = generate(&model, &vocab, "to ", 5);
    assert_eq!(
        out.chars().count(),
        "to ".chars().count() + 5,
        "expected prompt + 5 chars, got {:?}",
        out
    );
}

#[test]
fn generate_is_deterministic() {
    let (model, vocab) = small_model();
    let a = generate(&model, &vocab, "be", 10);
    let b = generate(&model, &vocab, "be", 10);
    assert_eq!(a, b, "two greedy generations from same model must agree");
}

#[test]
fn temperature_sampling_produces_correct_length_output() {
    let (model, vocab) = small_model();
    let mut rng = Lcg::new(7);
    let out = generate_with_temperature(&model, &vocab, "to ", 5, F(0.8), &mut rng);
    assert_eq!(out.chars().count(), "to ".chars().count() + 5);
}

#[test]
fn temperature_sampling_with_low_temp_approximates_greedy() {
    let (model, vocab) = small_model();
    let greedy = generate(&model, &vocab, "be", 8);
    let mut rng = Lcg::new(99);
    let cold = generate_with_temperature(&model, &vocab, "be", 8, F(0.001), &mut rng);
    assert_eq!(cold, greedy);
}

#[test]
fn generate_handles_prompt_longer_than_max_seq_len() {
    let (model, vocab) = small_model();
    let long_prompt = "to be or no";
    let out = generate(&model, &vocab, long_prompt, 3);
    assert_eq!(out.chars().count(), long_prompt.chars().count() + 3);
}

#[test]
fn top_k_truncates_to_k_tokens() {
    let probs: Vec<F> = vec![0.4, 0.25, 0.15, 0.1, 0.05, 0.03, 0.02].into_iter().map(f).collect();
    let truncated = truncate_top_k(&probs, 3);
    assert_eq!(truncated.len(), 3);
    assert!(truncated[0].1 >= truncated[1].1);
    assert!(truncated[1].1 >= truncated[2].1);
    let sum: f32 = truncated.iter().map(|(_, p)| p.0).sum();
    assert!((sum - 1.0).abs() < 1e-6, "top-k sum != 1: {}", sum);
    let mut indices: Vec<usize> = truncated.iter().map(|(i, _)| *i).collect();
    indices.sort();
    assert_eq!(indices, vec![0, 1, 2]);
}

#[test]
fn top_p_includes_the_token_that_crosses_threshold() {
    let probs: Vec<F> = vec![0.5, 0.3, 0.15, 0.05].into_iter().map(f).collect();
    let truncated = truncate_top_p(&probs, F(0.7));
    assert_eq!(truncated.len(), 2);
    let indices: Vec<usize> = truncated.iter().map(|(i, _)| *i).collect();
    assert_eq!(indices, vec![0, 1]);
    let sum: f32 = truncated.iter().map(|(_, p)| p.0).sum();
    assert!((sum - 1.0).abs() < 1e-6);
}

#[test]
fn top_p_with_p_one_keeps_full_distribution() {
    let probs: Vec<F> = vec![0.5, 0.3, 0.15, 0.05].into_iter().map(f).collect();
    let truncated = truncate_top_p(&probs, F(1.0));
    assert_eq!(truncated.len(), 4);
}

#[test]
fn top_k_with_low_temperature_approximates_greedy() {
    let (model, vocab) = small_model();
    let greedy = generate(&model, &vocab, "be", 8);
    let mut rng = Lcg::new(123);
    let cold_topk = generate_with_mode(
        &model,
        &vocab,
        "be",
        8,
        SamplingMode::TopK {
            k: 5,
            temperature: F(0.001),
        },
        &mut rng,
    );
    assert_eq!(cold_topk, greedy, "cold top-k diverged from greedy");
}

#[test]
fn top_p_with_low_temperature_approximates_greedy() {
    let (model, vocab) = small_model();
    let greedy = generate(&model, &vocab, "be", 8);
    let mut rng = Lcg::new(123);
    let cold_topp = generate_with_mode(
        &model,
        &vocab,
        "be",
        8,
        SamplingMode::TopP {
            p: F(0.9),
            temperature: F(0.001),
        },
        &mut rng,
    );
    assert_eq!(cold_topp, greedy, "cold top-p diverged from greedy");
}

#[test]
fn top_k_sampling_produces_correct_length() {
    let (model, vocab) = small_model();
    let mut rng = Lcg::new(7);
    let out = generate_with_mode(
        &model,
        &vocab,
        "to ",
        5,
        SamplingMode::TopK {
            k: 5,
            temperature: F(0.8),
        },
        &mut rng,
    );
    assert_eq!(out.chars().count(), "to ".chars().count() + 5);
}

#[test]
fn top_p_sampling_produces_correct_length() {
    let (model, vocab) = small_model();
    let mut rng = Lcg::new(7);
    let out = generate_with_mode(
        &model,
        &vocab,
        "to ",
        5,
        SamplingMode::TopP {
            p: F(0.9),
            temperature: F(0.8),
        },
        &mut rng,
    );
    assert_eq!(out.chars().count(), "to ".chars().count() + 5);
}

#[test]
fn argmax_takes_the_last_of_equals() {
    let v: Vec<F> = vec![F(1.0), F(3.0), F(3.0), F(2.0)];
    assert_eq!(argmax(&v), 2);
}

#[test]
fn tempered_softmax_sums_to_one() {
    let logits: Vec<F> = vec![F(0.0), F(0.0), F(0.0), F(0.0)];
    let even = softmax_with_temperature(&logits, F(0.7));
    assert!(even.iter().all(|p| p.0 == 0.25));
    let steep = softmax_with_temperature(&[F(1.0), F(2.0)], F(0.5));
    let want = 1.0_f32 / (1.0 + (-2.0_f32).exp());
    assert!((steep[1].0 - want).abs() < 1e-6);
}

#[test]
fn picking_walks_the_running_sum() {
    let probs = [F(0.5), F(0.25), F(0.25)];
    assert_eq!(pick(&probs, F(0.0)), 0);
    assert_eq!(pick(&probs, F(0.6)), 1);
    assert_eq!(pick(&probs, F(0.8)), 2);
    assert_eq!(pick(&probs, F(2.0)), 2);
}

#[test]
fn ranking_lists_every_token_once_in_falling_order() {
    let probs = [F(0.1), F(0.4), F(0.1), F(0.4)];
    let order: Vec<usize> = rank(&probs).iter().map(|p| p.0).collect();
    assert_eq!(order, vec![1, 3, 0, 2]);
}

#[test]
fn greedy_choice_leaves_the_generator_alone() {
    let mut rng = Lcg::new(77);
    let before = rng.state;
    let id = choose_token(&[F(0.1), F(0.9)], SamplingMode::Greedy, &mut rng);
    assert_eq!(id, 1);
    assert_eq!(rng.state, before);
    let drawn = sample_from_probs(&[F(0.5), F(0.5)], &mut rng);
    assert!(drawn < 2);
    assert_ne!(rng.state, before);
}

#[test]
fn what_is_kept_of_the_probabilities_sums_to_one() {
    let probs = softmax_with_temperature(&[F(0.3), F(2.0), F(-1.0), F(1.9)], F(0.7));
    for list in [truncate_top_k(&probs, 2), truncate_top_p(&probs, F(0.6))] {
        let sum: f32 = list.iter().map(|e| e.1 .0).sum();
        assert!((sum - 1.0).abs() < 1e-6);
    }
}
