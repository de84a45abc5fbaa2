//! The sampling passes that are made over a list of prompts.
use crate::agreement::{drift_free, law_cache_changes_nothing};
use crate::cli::SampleMode;
use crate::config::NINE_TENTHS;
use crate::data::{Lcg, Vocab};
use crate::float::{deterministic, fbits, Float};
use crate::inference::{can_generate, generate_with_mode, generated, SamplingMode};
use crate::inference_kv::{cached_generated, generate_with_cache};
use crate::model::{lcg_skip, lemma_skip_on, Model};
use crate::ops::ids_below;
use crate::optim::HALF;
use vstd::prelude::*;

verus! {

/// The bit pattern of 0.8.
pub const FOUR_FIFTHS: u32 = 0x3F4C_CCCD;

/// The seed of the generator that all passes share.
pub const SAMPLE_SEED: u64 = 0xCAFE_F00D;

/// How many tokens a pass adds to each prompt.
pub const SAMPLE_TOKENS: usize = 200;

/// How many candidates the pass over the likeliest tokens keeps.
pub const SAMPLE_TOP_K: usize = 10;

/// The sampling mode of a pass.
pub open spec fn mode_of_pass<T: Float>(pass: SampleMode) -> SamplingMode<T> {
    match pass {
        SampleMode::Greedy => SamplingMode::Greedy,
        SampleMode::Temp08 => SamplingMode::Temperature { temperature: fbits::<T>(FOUR_FIFTHS) },
        SampleMode::TopK => SamplingMode::TopK {
            k: SAMPLE_TOP_K,
            temperature: fbits::<T>(FOUR_FIFTHS),
        },
        SampleMode::TopP => SamplingMode::TopP {
            p: fbits::<T>(NINE_TENTHS),
            temperature: fbits::<T>(FOUR_FIFTHS),
        },
        SampleMode::TopP05 => SamplingMode::TopP {
            p: fbits::<T>(NINE_TENTHS),
            temperature: fbits::<T>(HALF),
        },
        SampleMode::KvCache => SamplingMode::TopP {
            p: fbits::<T>(NINE_TENTHS),
            temperature: fbits::<T>(FOUR_FIFTHS),
        },
    }
}

/// The sampling mode of a pass.
pub fn pass_mode<T: Float>(pass: SampleMode) -> (r: SamplingMode<T>)
    ensures
        r is Greedy <==> pass is Greedy,
        deterministic::<T>() ==> r == mode_of_pass::<T>(pass),
{
    let warm = T::from_bits(FOUR_FIFTHS);
    let p = T::from_bits(NINE_TENTHS);
    match pass {
        SampleMode::Greedy => SamplingMode::Greedy,
        SampleMode::Temp08 => SamplingMode::Temperature { temperature: warm },
        SampleMode::TopK => SamplingMode::TopK { k: SAMPLE_TOP_K, temperature: warm },
        SampleMode::TopP => SamplingMode::TopP { p, temperature: warm },
        SampleMode::TopP05 => SamplingMode::TopP { p, temperature: T::from_bits(HALF) },
        SampleMode::KvCache => SamplingMode::TopP { p, temperature: warm },
    }
}

/// The name by which a pass is asked for.
pub open spec fn label_of(pass: SampleMode) -> Seq<char> {
    match pass {
        SampleMode::Greedy => "greedy"@,
        SampleMode::Temp08 => "temp"@,
        SampleMode::TopK => "topk"@,
        SampleMode::TopP => "topp"@,
        SampleMode::TopP05 => "topp_low"@,
        SampleMode::KvCache => "kv"@,
    }
}

/// The name by which a pass is asked for.
pub fn pass_label(pass: SampleMode) -> (r: String)
    ensures
        r@ == label_of(pass),
{
    match pass {
        SampleMode::Greedy => "greedy".to_owned(),
        SampleMode::Temp08 => "temp".to_owned(),
        SampleMode::TopK => "topk".to_owned(),
        SampleMode::TopP => "topp".to_owned(),
        SampleMode::TopP05 => "topp_low".to_owned(),
        SampleMode::KvCache => "kv".to_owned(),
    }
}

/// Asking for a pass by its name gives that pass.
pub proof fn law_label_asks_for_pass(pass: SampleMode)
    ensures
        crate::cli::mode_of(label_of(pass)) == Some(pass),
{
    reveal_strlit("greedy");
    reveal_strlit("temp");
    reveal_strlit("temperature");
    reveal_strlit("topk");
    reveal_strlit("top-k");
    reveal_strlit("topp");
    reveal_strlit("top-p");
    reveal_strlit("topp_low");
    reveal_strlit("topp-low");
    reveal_strlit("topp-cold");
    reveal_strlit("topp05");
    reveal_strlit("kv");
    reveal_strlit("kv_cache");
    reveal_strlit("kv-cache");
    reveal_strlit("kvcache");
    let w = label_of(pass);
    assert("greedy"@.len() == 6 && "temp"@.len() == 4 && "temperature"@.len() == 11);
    assert("topk"@.len() == 4 && "topk"@[3] == 'k' && "topp"@[3] == 'p' && "temp"@[1] == 'e');
    assert("top-k"@.len() == 5 && "top-p"@.len() == 5 && "topp_low"@.len() == 8);
    assert("kv"@.len() == 2 && "topp_low"@[4] == '_' && "topk"@[1] == 'o');
}

/// A prompt can be continued.
pub open spec fn prompt_ok<T: Float>(m: Model<T>, v: Vocab, prompt: Seq<char>) -> bool {
    &&& v.covers(prompt)
    &&& prompt.len() > 0
    &&& ids_below(v.encoded(prompt), m.config.vocab_size)
}

/// What a pass makes of one prompt: the ids, and the generator's state.
pub open spec fn continued<T: Float>(
    m: Model<T>,
    v: Vocab,
    prompt: Seq<char>,
    pass: SampleMode,
    state: u64,
) -> (Seq<usize>, u64) {
    let mode = mode_of_pass::<T>(pass);
    if pass == SampleMode::KvCache {
        cached_generated(m@, m.config, v.encoded(prompt), mode, state, SAMPLE_TOKENS as nat)
    } else {
        generated(m@, m.config, v.encoded(prompt), mode, state, SAMPLE_TOKENS as nat)
    }
}

/// Where the two passes of the model agree, the pass with cached keys and values makes of
/// a prompt what its mode makes of it without.
pub proof fn law_cached_pass_is_plain<T: Float>(
    m: Model<T>,
    v: Vocab,
    prompt: Seq<char>,
    state: u64,
)
    requires
        drift_free::<T>(),
        can_generate(m),
        prompt_ok(m, v, prompt),
    ensures
        continued(m, v, prompt, SampleMode::KvCache, state) == generated(
            m@,
            m.config,
            v.encoded(prompt),
            mode_of_pass::<T>(SampleMode::KvCache),
            state,
            SAMPLE_TOKENS as nat,
        ),
{
    law_cache_changes_nothing(
        m,
        v.encoded(prompt),
        mode_of_pass::<T>(SampleMode::KvCache),
        state,
        SAMPLE_TOKENS as nat,
    );
}

/// The generator's state after a pass has picked `n` tokens: it draws one number for
/// each, but for the greedy pass, which draws none.
pub open spec fn drawn_state(pass: SampleMode, s: u64, n: nat) -> u64 {
    if pass is Greedy {
        s
    } else {
        lcg_skip(s, n)
    }
}

/// The generator's state before prompt `k` of a pass.
pub open spec fn state_before<T: Float>(
    m: Model<T>,
    v: Vocab,
    prompts: Seq<String>,
    pass: SampleMode,
    state: u64,
    k: nat,
) -> u64
    decreases k,
{
    if k == 0 {
        state
    } else {
        let s = state_before(m, v, prompts, pass, state, (k - 1) as nat);
        continued(m, v, prompts[k - 1]@, pass, s).1
    }
}

/// The continuation of one prompt in a pass.
pub fn sample_prompt<T: Float>(
    model: &Model<T>,
    vocab: &Vocab,
    prompt: &str,
    pass: SampleMode,
    rng: &mut Lcg,
) -> (r: String)
    requires
        can_generate(*model),
        vocab.wf(),
        model.config.vocab_size <= vocab.id_to_char@.len(),
        prompt_ok(*model, *vocab, prompt@),
    ensures
        r@.len() == prompt@.len() + SAMPLE_TOKENS,
        prompt@.is_prefix_of(r@),
        vocab.covers(r@),
        final(rng).state == drawn_state(pass, old(rng).state, SAMPLE_TOKENS as nat),
        deterministic::<T>() ==> {
            let g = continued(*model, *vocab, prompt@, pass, old(rng).state);
            r@ == vocab.decoded(g.0) && final(rng).state == g.1
        },
{
    let mode = pass_mode::<T>(pass);
    if pass == SampleMode::KvCache {
        generate_with_cache(model, vocab, prompt, SAMPLE_TOKENS, mode, rng)
    } else {
        generate_with_mode(model, vocab, prompt, SAMPLE_TOKENS, mode, rng)
    }
}

/// A pass over a list of prompts: each continued in turn, with one generator.
pub fn sample_pass<T: Float>(
    model: &Model<T>,
    vocab: &Vocab,
    prompts: &Vec<String>,
    pass: SampleMode,
    rng: &mut Lcg,
) -> (r: Vec<String>)
    requires
        can_generate(*model),
        vocab.wf(),
        model.config.vocab_size <= vocab.id_to_char@.len(),
        forall|k: int|
            0 <= k < prompts@.len() ==> prompt_ok(*model, *vocab, (#[trigger] prompts@[k])@),
    ensures
        r@.len() == prompts@.len(),
        forall|k: int|
            0 <= k < r@.len() ==> {
                &&& (#[trigger] r@[k])@.len() == prompts@[k]@.len() + SAMPLE_TOKENS
                &&& prompts@[k]@.is_prefix_of(r@[k]@)
            },
        final(rng).state == drawn_state(
            pass,
            old(rng).state,
            (prompts@.len() * SAMPLE_TOKENS) as nat,
        ),
        deterministic::<T>() ==> {
            &&& forall|k: int|
                0 <= k < r@.len() ==> (#[trigger] r@[k])@ == vocab.decoded(
                    continued(
                        *model,
                        *vocab,
                        prompts@[k]@,
                        pass,
                        state_before(
                            *model,
                            *vocab,
                            prompts@,
                            pass,
                            old(rng).state,
                            k as nat,
                        ),
                    ).0,
                )
            &&& final(rng).state == state_before(
                *model,
                *vocab,
                prompts@,
                pass,
                old(rng).state,
                prompts@.len(),
            )
        },
{
    let ghost start = rng.state;
    let mut out: Vec<String> = Vec::new();
    let mut k: usize = 0;
    while k < prompts.len()
        invariant
            k <= prompts@.len(),
            can_generate(*model),
            vocab.wf(),
            model.config.vocab_size <= vocab.id_to_char@.len(),
            forall|q: int|
                0 <= q < prompts@.len() ==> prompt_ok(*model, *vocab, (#[trigger] prompts@[q])@),
            out@.len() == k,
            forall|q: int|
                0 <= q < k ==> (#[trigger] out@[q])@.len() == prompts@[q]@.len() + SAMPLE_TOKENS
                    && prompts@[q]@.is_prefix_of(out@[q]@),
            rng.state == drawn_state(pass, start, (k * SAMPLE_TOKENS) as nat),
            deterministic::<T>() ==> rng.state == state_before(
                *model,
                *vocab,
                prompts@,
                pass,
                start,
                k as nat,
            ),
            deterministic::<T>() ==> forall|q: int|
                0 <= q < k ==> (#[trigger] out@[q])@ == vocab.decoded(
                    continued(
                        *model,
                        *vocab,
                        prompts@[q]@,
                        pass,
                        state_before(*model, *vocab, prompts@, pass, start, q as nat),
                    ).0,
                ),
        decreases prompts@.len() - k,
    {
        let text = sample_prompt(model, vocab, prompts[k].as_str(), pass, rng);
        out.push(text);
        proof {
            lemma_skip_on(start, (k * SAMPLE_TOKENS) as nat, SAMPLE_TOKENS as nat);
            assert((k + 1) * SAMPLE_TOKENS == k * SAMPLE_TOKENS + SAMPLE_TOKENS)
                by (nonlinear_arith);
        }
        k += 1;
    }
    out
}

} // verus!
