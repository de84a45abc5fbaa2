//! Arguments, sampling passes and prompts.
use bitnet::cli::{enabled_sample_modes, filter_prompt, parse_args, space, Command, SampleMode};
use bitnet::data::{Lcg, Vocab, TINY_CORPUS};
use bitnet::float::Float;
use bitnet::inference::{generate, SamplingMode};
use bitnet::model::{Model, ModelConfig};
use bitnet::samples::{pass_label, pass_mode, sample_pass, SAMPLE_SEED, SAMPLE_TOKENS};


/// A 32-bit float that keeps a single NaN.
#[derive(Clone, Copy, Debug, PartialEq, PartialOrd)]
struct F(f32);

/// Wraps a number, with one pattern for NaN.
fn f(x: f32) -> F {
    if x.is_nan() {
        F(f32::NAN)
    } else {
        F(x)
    }
}

impl Float for F {
    fn from_bits(bits: u32) -> F {
        f(f32::from_bits(bits))
    }

    fn to_bits(self) -> u32 {
        self.0.to_bits()
    }

    fn from_count(n: usize) -> F {
        F(n as f32)
    }

    fn from_i8(n: i8) -> F {
        F(n as f32)
    }

    fn to_i8(self) -> i8 {
        self.0 as i8
    }

    fn to_count(self) -> usize {
        self.0 as usize
    }

    fn plus(self, other: F) -> F {
        f(self.0 + other.0)
    }

    fn minus(self, other: F) -> F {
        f(self.0 - other.0)
    }

    fn times(self, other: F) -> F {
        f(self.0 * other.0)
    }

    fn over(self, other: F) -> F {
        f(self.0 / other.0)
    }

    fn pow(self, other: F) -> F {
        f(self.0.powf(other.0))
    }

    fn negate(self) -> F {
        f(-self.0)
    }

    fn abs(self) -> F {
        f(self.0.abs())
    }

    fn round(self) -> F {
        f(self.0.round())
    }

    fn exp(self) -> F {
        f(self.0.exp())
    }

    fn ln(self) -> F {
        f(self.0.ln())
    }

    fn sqrt(self) -> F {
        f(self.0.sqrt())
    }

    fn sin(self) -> F {
        f(self.0.sin())
    }

    fn cos(self) -> F {
        f(self.0.cos())
    }

    fn below(self, other: F) -> bool {
        self.0 < other.0
    }

    fn same(self, other: F) -> bool {
        self.0 == other.0
    }
}

const ALL: [SampleMode; 6] = [
    SampleMode::Greedy,
    SampleMode::Temp08,
    SampleMode::TopK,
    SampleMode::TopP,
    SampleMode::TopP05,
    SampleMode::KvCache,
];

fn args(words: &[&str]) -> Vec<String> {
    words.iter().map(|w| w.to_string()).collect()
}

#[test]
fn an_empty_setting_asks_for_every_pass() {
    assert_eq!(enabled_sample_modes("").0, ALL.to_vec());
    assert_eq!(enabled_sample_modes("  ALL \n").0, ALL.to_vec());
    assert_eq!(
        enabled_sample_modes("min").0,
        vec![SampleMode::TopP05, SampleMode::KvCache]
    );
    assert!(enabled_sample_modes("none").0.is_empty());
}

#[test]
fn listed_passes_come_in_their_usual_order() {
    let (modes, unknown) = enabled_sample_modes("kv, Top-P ,greedy,kv,,wat");
    assert_eq!(
        modes,
        vec![SampleMode::Greedy, SampleMode::TopP, SampleMode::KvCache]
    );
    assert_eq!(unknown, vec!["wat".to_string()]);
}

#[test]
fn any_white_space_is_trimmed() {
    let (modes, unknown) = enabled_sample_modes("\u{2003}topk\u{00a0},\ttemp");
    assert_eq!(modes, vec![SampleMode::Temp08, SampleMode::TopK]);
    assert!(unknown.is_empty());
}

#[test]
fn white_space_is_that_of_unicode() {
    for x in 0..=0x10FFFFu32 {
        if let Some(c) = char::from_u32(x) {
            assert_eq!(space(c), c.is_whitespace(), "U+{x:04X}");
        }
    }
}

#[test]
fn every_label_asks_for_its_pass() {
    for pass in ALL {
        assert_eq!(enabled_sample_modes(&pass_label(pass)).0, vec![pass]);
    }
}

#[test]
fn prompts_lose_what_the_vocabulary_lacks() {
    let vocab = Vocab::from_text("abc ");
    let (kept, dropped) = filter_prompt(&vocab, "a cab!?");
    assert_eq!(kept, "a cab");
    assert_eq!(dropped, "!?");
}

#[test]
fn arguments_name_a_command() {
    assert!(matches!(parse_args(&args(&["bitnet"])), Command::Demo));
    assert!(matches!(parse_args(&args(&["bitnet", "nonsense"])), Command::Demo));
    assert!(matches!(parse_args(&args(&["bitnet", "sample"])), Command::SampleUsage));
    match parse_args(&args(&["bitnet", "sample", "m.bin", "Look", "thee", "well"])) {
        Command::Sample { path, prompt } => {
            assert_eq!(path, "m.bin");
            assert_eq!(prompt, Some("Look thee well".to_string()));
        }
        _ => panic!("not a sampling command"),
    }
    match parse_args(&args(&["bitnet", "sample", "m.bin"])) {
        Command::Sample { prompt, .. } => assert!(prompt.is_none()),
        _ => panic!("not a sampling command"),
    }
    match parse_args(&args(&["bitnet", "cuda-shakespeare-large", "old.bin"])) {
        Command::Shakespeare { large, cuda, resume } => {
            assert!(large && cuda);
            assert_eq!(resume, Some("old.bin".to_string()));
        }
        _ => panic!("not a training command"),
    }
    match parse_args(&args(&["bitnet", "shakespeare"])) {
        Command::Shakespeare { large, cuda, resume } => {
            assert!(!large && !cuda && resume.is_none());
        }
        _ => panic!("not a training command"),
    }
    assert!(matches!(parse_args(&args(&["bitnet", "cuda-demo"])), Command::CudaDemo));
    assert!(matches!(
        parse_args(&args(&["bitnet", "cuda-forward-bench"])),
        Command::CudaForwardBench
    ));
    assert!(matches!(
        parse_args(&args(&["bitnet", "cuda-train-demo"])),
        Command::CudaTrainDemo
    ));
}

#[test]
fn passes_have_their_modes() {
    assert!(matches!(pass_mode::<F>(SampleMode::Greedy), SamplingMode::Greedy));
    match pass_mode::<F>(SampleMode::TopK) {
        SamplingMode::TopK { k, temperature } => {
            assert_eq!(k, 10);
            assert_eq!(temperature.0, 0.8);
        }
        _ => panic!("not a top-k mode"),
    }
    match pass_mode::<F>(SampleMode::TopP05) {
        SamplingMode::TopP { p, temperature } => {
            assert_eq!(p.0, 0.9);
            assert_eq!(temperature.0, 0.5);
        }
        _ => panic!("not a top-p mode"),
    }
}

#[test]
fn a_pass_continues_every_prompt() {
    let vocab = Vocab::from_text(TINY_CORPUS);
    let cfg = ModelConfig {
        vocab_size: vocab.size(),
        hidden_dim: 4,
        n_heads: 1,
        head_dim: 4,
        ffn_dim: 4,
        max_seq_len: 4,
        n_blocks: 1,
    };
    let model = Model::<F>::new(&cfg, 42);
    let prompts = args(&["to ", "be"]);
    let mut rng = Lcg::new(SAMPLE_SEED);
    let before = rng.state;
    let greedy = sample_pass(&model, &vocab, &prompts, SampleMode::Greedy, &mut rng);
    assert_eq!(rng.state, before);
    assert_eq!(greedy[1], generate(&model, &vocab, "be", SAMPLE_TOKENS));
    let cached = sample_pass(&model, &vocab, &prompts, SampleMode::KvCache, &mut rng);
    assert_eq!(cached.len(), 2);
    assert!(cached[0].starts_with("to "));
    assert_eq!(cached[0].chars().count(), 3 + SAMPLE_TOKENS);
    assert_ne!(rng.state, before);
}

#[test]
fn configurations_say_what_they_can_run() {
    let mut cfg = ModelConfig {
        vocab_size: 8,
        hidden_dim: 4,
        n_heads: 2,
        head_dim: 2,
        ffn_dim: 8,
        max_seq_len: 4,
        n_blocks: 1,
    };
    assert!(cfg.runs(4) && cfg.countable());
    assert!(!cfg.runs(usize::MAX));
    cfg.head_dim = 3;
    assert!(!cfg.runs(4));
    cfg.vocab_size = usize::MAX;
    assert!(!cfg.countable());
}
