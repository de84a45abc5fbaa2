//! What the program is asked to do: its arguments, its sampling modes and its prompts.
use crate::data::{chars_of, Vocab};
use vstd::prelude::*;

verus! {

/// A pass over the prompts after training.
#[derive(Debug, Clone, Copy, PartialEq, Eq, Structural)]
pub enum SampleMode {
    Greedy,
    Temp08,
    TopK,
    TopP,
    TopP05,
    KvCache,
}

/// Every pass, in the order in which they are made.
pub open spec fn all_modes() -> Seq<SampleMode> {
    seq![
        SampleMode::Greedy,
        SampleMode::Temp08,
        SampleMode::TopK,
        SampleMode::TopP,
        SampleMode::TopP05,
        SampleMode::KvCache,
    ]
}

/// The character is white space, as Unicode has it.
pub open spec fn is_space(c: char) -> bool {
    let x = c as u32;
    ||| 0x09 <= x <= 0x0D
    ||| x == 0x20 || x == 0x85 || x == 0xA0 || x == 0x1680
    ||| 0x2000 <= x <= 0x200A
    ||| x == 0x2028 || x == 0x2029 || x == 0x202F || x == 0x205F || x == 0x3000
}

/// Whether a character is white space.
pub fn space(c: char) -> (r: bool)
    ensures
        r == is_space(c),
{
    let x: u32 = c as u32;
    (0x09 <= x && x <= 0x0D) || x == 0x20 || x == 0x85 || x == 0xA0 || x == 0x1680 || (0x2000 <= x
        && x <= 0x200A) || x == 0x2028 || x == 0x2029 || x == 0x202F || x == 0x205F || x == 0x3000
}

/// Where the text that is left after leading white space starts.
pub open spec fn lead(s: Seq<char>, i: nat) -> nat
    decreases s.len() - i,
{
    if i < s.len() && is_space(s[i as int]) {
        lead(s, i + 1)
    } else {
        i
    }
}

/// Where the text that is left before trailing white space ends.
pub open spec fn trail(s: Seq<char>, start: nat, end: nat) -> nat
    decreases end,
{
    if start < end && is_space(s[end - 1]) {
        trail(s, start, (end - 1) as nat)
    } else {
        end
    }
}

/// A text without white space at its ends.
pub open spec fn trimmed(s: Seq<char>) -> Seq<char> {
    let start = lead(s, 0);
    s.subrange(start as int, trail(s, start, s.len()) as int)
}

/// A character with the upper-case letters A to Z made lower-case.
pub open spec fn lower_char(c: char) -> char {
    match c {
        'A' => 'a',
        'B' => 'b',
        'C' => 'c',
        'D' => 'd',
        'E' => 'e',
        'F' => 'f',
        'G' => 'g',
        'H' => 'h',
        'I' => 'i',
        'J' => 'j',
        'K' => 'k',
        'L' => 'l',
        'M' => 'm',
        'N' => 'n',
        'O' => 'o',
        'P' => 'p',
        'Q' => 'q',
        'R' => 'r',
        'S' => 's',
        'T' => 't',
        'U' => 'u',
        'V' => 'v',
        'W' => 'w',
        'X' => 'x',
        'Y' => 'y',
        'Z' => 'z',
        _ => c,
    }
}

/// A text with the upper-case letters A to Z made lower-case.
pub open spec fn lowered(s: Seq<char>) -> Seq<char> {
    Seq::new(s.len(), |i: int| lower_char(s[i]))
}

/// The parts of a text between commas.
pub open spec fn parts_of(s: Seq<char>) -> Seq<Seq<char>>
    decreases s.len(),
{
    if s.len() == 0 {
        seq![seq![]]
    } else {
        let before = parts_of(s.drop_last());
        if s.last() == ',' {
            before.push(seq![])
        } else {
            before.drop_last().push(before.last().push(s.last()))
        }
    }
}

/// The pass that a word names.
pub open spec fn mode_of(w: Seq<char>) -> Option<SampleMode> {
    if w == "greedy"@ {
        Some(SampleMode::Greedy)
    } else if w == "temp"@ || w == "temperature"@ {
        Some(SampleMode::Temp08)
    } else if w == "topk"@ || w == "top-k"@ {
        Some(SampleMode::TopK)
    } else if w == "topp"@ || w == "top-p"@ {
        Some(SampleMode::TopP)
    } else if w == "topp_low"@ || w == "topp-low"@ || w == "topp-cold"@ || w == "topp05"@ {
        Some(SampleMode::TopP05)
    } else if w == "kv"@ || w == "kv_cache"@ || w == "kv-cache"@ || w == "kvcache"@ {
        Some(SampleMode::KvCache)
    } else {
        None
    }
}

/// Some word of a list names the pass.
pub open spec fn wanted(words: Seq<Seq<char>>, m: SampleMode) -> bool {
    exists|i: int| 0 <= i < words.len() && mode_of(#[trigger] words[i]) == Some(m)
}

/// The first `n` passes of all, without those that no word names.
pub open spec fn chosen(words: Seq<Seq<char>>, n: nat) -> Seq<SampleMode>
    decreases n,
{
    if n == 0 {
        seq![]
    } else {
        let before = chosen(words, (n - 1) as nat);
        let m = all_modes()[n - 1];
        if wanted(words, m) {
            before.push(m)
        } else {
            before
        }
    }
}

/// The words of the first `n` that are not empty and name no pass.
pub open spec fn unknown_words(words: Seq<Seq<char>>, n: nat) -> Seq<Seq<char>>
    decreases n,
{
    if n == 0 {
        seq![]
    } else {
        let before = unknown_words(words, (n - 1) as nat);
        let w = words[n - 1];
        if w.len() > 0 && mode_of(w) is None {
            before.push(w)
        } else {
            before
        }
    }
}

/// The words of a setting: its parts between commas, without white space at their ends.
pub open spec fn words_of(s: Seq<char>) -> Seq<Seq<char>> {
    Seq::new(parts_of(s).len(), |i: int| trimmed(parts_of(s)[i]))
}

/// The passes that a setting asks for, and its words that name none.
pub open spec fn modes_of(raw: Seq<char>) -> (Seq<SampleMode>, Seq<Seq<char>>) {
    let s = lowered(trimmed(raw));
    if s.len() == 0 || s == "all"@ {
        (all_modes(), seq![])
    } else if s == "min"@ || s == "minimal"@ {
        (seq![SampleMode::TopP05, SampleMode::KvCache], seq![])
    } else if s == "none"@ {
        (seq![], seq![])
    } else {
        let words = words_of(s);
        (chosen(words, 6), unknown_words(words, words.len()))
    }
}

/// The texts as sequences of characters.
pub open spec fn texts(v: Seq<String>) -> Seq<Seq<char>> {
    Seq::new(v.len(), |i: int| v[i]@)
}

/// The character lists as sequences.
pub open spec fn lists(v: Seq<Vec<char>>) -> Seq<Seq<char>> {
    Seq::new(v.len(), |i: int| v[i]@)
}

/// Whether characters spell a text.
fn spells(a: &[char], b: &str) -> (r: bool)
    ensures
        r == (a@ == b@),
{
    let other = chars_of(b);
    if a.len() != other.len() {
        return false;
    }
    let mut i: usize = 0;
    while i < a.len()
        invariant
            i <= a@.len(),
            a@.len() == other@.len(),
            other@ == b@,
            forall|k: int| 0 <= k < i ==> a@[k] == other@[k],
        decreases a@.len() - i,
    {
        if a[i] != other[i] {
            proof {
                assert(a@[i as int] != b@[i as int]);
            }
            return false;
        }
        i += 1;
    }
    proof {
        assert(a@ =~= b@);
    }
    true
}

/// Characters without white space at their ends.
fn trim(s: &[char]) -> (r: Vec<char>)
    ensures
        r@ == trimmed(s@),
{
    let mut start: usize = 0;
    while start < s.len() && space(s[start])
        invariant
            start <= s@.len(),
            lead(s@, start as nat) == lead(s@, 0),
        decreases s@.len() - start,
    {
        start += 1;
    }
    let mut end: usize = s.len();
    while start < end && space(s[end - 1])
        invariant
            start <= end <= s@.len(),
            trail(s@, start as nat, end as nat) == trail(s@, start as nat, s@.len()),
        decreases end,
    {
        end -= 1;
    }
    crate::tensor::copy_slice(vstd::slice::slice_subrange(s, start, end))
}

/// A character with the upper-case letters A to Z made lower-case.
fn lower(c: char) -> (r: char)
    ensures
        r == lower_char(c),
{
    match c {
        'A' => 'a',
        'B' => 'b',
        'C' => 'c',
        'D' => 'd',
        'E' => 'e',
        'F' => 'f',
        'G' => 'g',
        'H' => 'h',
        'I' => 'i',
        'J' => 'j',
        'K' => 'k',
        'L' => 'l',
        'M' => 'm',
        'N' => 'n',
        'O' => 'o',
        'P' => 'p',
        'Q' => 'q',
        'R' => 'r',
        'S' => 's',
        'T' => 't',
        'U' => 'u',
        'V' => 'v',
        'W' => 'w',
        'X' => 'x',
        'Y' => 'y',
        'Z' => 'z',
        _ => c,
    }
}

/// Characters with the upper-case letters A to Z made lower-case.
fn lower_all(s: &[char]) -> (r: Vec<char>)
    ensures
        r@ == lowered(s@),
{
    let mut out: Vec<char> = Vec::new();
    let mut i: usize = 0;
    while i < s.len()
        invariant
            i <= s@.len(),
            out@ =~= lowered(s@).take(i as int),
        decreases s@.len() - i,
    {
        out.push(lower(s[i]));
        i += 1;
    }
    proof {
        assert(out@ =~= lowered(s@));
    }
    out
}

/// The pass that characters name.
fn mode_named(w: &[char]) -> (r: Option<SampleMode>)
    ensures
        r == mode_of(w@),
{
    if spells(w, "greedy") {
        Some(SampleMode::Greedy)
    } else if spells(w, "temp") || spells(w, "temperature") {
        Some(SampleMode::Temp08)
    } else if spells(w, "topk") || spells(w, "top-k") {
        Some(SampleMode::TopK)
    } else if spells(w, "topp") || spells(w, "top-p") {
        Some(SampleMode::TopP)
    } else if spells(w, "topp_low") || spells(w, "topp-low") || spells(w, "topp-cold") || spells(
        w,
        "topp05",
    ) {
        Some(SampleMode::TopP05)
    } else if spells(w, "kv") || spells(w, "kv_cache") || spells(w, "kv-cache") || spells(
        w,
        "kvcache",
    ) {
        Some(SampleMode::KvCache)
    } else {
        None
    }
}

/// The parts of characters between commas.
fn split_commas(s: &[char]) -> (r: Vec<Vec<char>>)
    ensures
        lists(r@) == parts_of(s@),
{
    let mut out: Vec<Vec<char>> = Vec::new();
    let mut part: Vec<char> = Vec::new();
    let mut i: usize = 0;
    proof {
        assert(s@.take(0) =~= seq![]);
        assert(lists(out@).push(part@) =~= parts_of(s@.take(0)));
    }
    while i < s.len()
        invariant
            i <= s@.len(),
            lists(out@).push(part@) == parts_of(s@.take(i as int)),
        decreases s@.len() - i,
    {
        let c = s[i];
        let ghost before = lists(out@);
        let ghost held = part@;
        proof {
            assert(s@.take(i + 1).drop_last() =~= s@.take(i as int));
            assert(before.push(held).drop_last() =~= before);
        }
        if c == ',' {
            out.push(part);
            part = Vec::new();
            proof {
                assert(lists(out@).push(part@) =~= before.push(held).push(seq![]));
            }
        } else {
            part.push(c);
            proof {
                assert(lists(out@).push(part@) =~= before.push(held.push(c)));
            }
        }
        i += 1;
    }
    let ghost before = lists(out@);
    let ghost held = part@;
    out.push(part);
    proof {
        assert(lists(out@) =~= before.push(held));
        assert(s@.take(i as int) =~= s@);
    }
    out
}

/// The text that characters spell.
fn text_of_chars(s: &[char]) -> (r: String)
    ensures
        r@ == s@,
{
    let mut out = String::new();
    let mut i: usize = 0;
    while i < s.len()
        invariant
            i <= s@.len(),
            out@ =~= s@.take(i as int),
        decreases s@.len() - i,
    {
        out.push(s[i]);
        i += 1;
    }
    proof {
        assert(s@.take(i as int) =~= s@);
    }
    out
}

/// The words of a setting.
fn split_words(s: &[char]) -> (r: Vec<Vec<char>>)
    ensures
        lists(r@) == words_of(s@),
{
    let parts = split_commas(s);
    let mut out: Vec<Vec<char>> = Vec::new();
    let mut i: usize = 0;
    while i < parts.len()
        invariant
            i <= parts@.len(),
            lists(parts@) == parts_of(s@),
            out@.len() == i,
            forall|k: int| 0 <= k < i ==> (#[trigger] out@[k])@ == trimmed(lists(parts@)[k]),
        decreases parts@.len() - i,
    {
        out.push(trim(parts[i].as_slice()));
        i += 1;
    }
    proof {
        assert(lists(out@) =~= words_of(s@));
    }
    out
}

/// The passes that a setting asks for, in their order, and its words that name
/// none. An empty setting and `all` ask for every pass, `min` and `minimal` for
/// the last two, `none` for no pass.
pub fn enabled_sample_modes(raw: &str) -> (r: (Vec<SampleMode>, Vec<String>))
    ensures
        (r.0@, texts(r.1@)) == modes_of(raw@),
{
    let all = chars_of(raw);
    let bare = trim(all.as_slice());
    let s = lower_all(bare.as_slice());
    let none: Vec<String> = Vec::new();
    proof {
        assert(texts(none@) =~= seq![]);
    }
    if s.len() == 0 || spells(s.as_slice(), "all") {
        let modes = vec![
            SampleMode::Greedy,
            SampleMode::Temp08,
            SampleMode::TopK,
            SampleMode::TopP,
            SampleMode::TopP05,
            SampleMode::KvCache,
        ];
        proof {
            assert(modes@ =~= all_modes());
        }
        return (modes, none);
    }
    if spells(s.as_slice(), "min") || spells(s.as_slice(), "minimal") {
        let modes = vec![SampleMode::TopP05, SampleMode::KvCache];
        proof {
            assert(modes@ =~= seq![SampleMode::TopP05, SampleMode::KvCache]);
        }
        return (modes, none);
    }
    if spells(s.as_slice(), "none") {
        let modes: Vec<SampleMode> = Vec::new();
        proof {
            assert(modes@ =~= seq![]);
        }
        return (modes, none);
    }
    let words = split_words(s.as_slice());
    let modes = choose_modes(&words);
    let unknown = name_unknown(&words);
    (modes, unknown)
}

/// Whether some word names a pass.
fn names(words: &Vec<Vec<char>>, m: SampleMode) -> (r: bool)
    ensures
        r == wanted(lists(words@), m),
{
    let mut i: usize = 0;
    while i < words.len()
        invariant
            i <= words@.len(),
            forall|k: int|
                0 <= k < i ==> mode_of(#[trigger] lists(words@)[k]) != Some(m),
        decreases words@.len() - i,
    {
        if let Some(found) = mode_named(words[i].as_slice()) {
            if found == m {
                proof {
                    assert(mode_of(lists(words@)[i as int]) == Some(m));
                }
                return true;
            }
        }
        i += 1;
    }
    false
}

/// The passes that words name, in their order.
fn choose_modes(words: &Vec<Vec<char>>) -> (r: Vec<SampleMode>)
    ensures
        r@ == chosen(lists(words@), 6),
{
    let all = vec![
        SampleMode::Greedy,
        SampleMode::Temp08,
        SampleMode::TopK,
        SampleMode::TopP,
        SampleMode::TopP05,
        SampleMode::KvCache,
    ];
    proof {
        assert(all@ =~= all_modes());
    }
    let mut out: Vec<SampleMode> = Vec::new();
    let mut n: usize = 0;
    while n < 6
        invariant
            n <= 6,
            all@ == all_modes(),
            out@ == chosen(lists(words@), n as nat),
        decreases 6 - n,
    {
        let m = all[n];
        if names(words, m) {
            out.push(m);
        }
        n += 1;
    }
    out
}

/// The words that are not empty and name no pass.
fn name_unknown(words: &Vec<Vec<char>>) -> (r: Vec<String>)
    ensures
        texts(r@) == unknown_words(lists(words@), words@.len()),
{
    let ghost ws = lists(words@);
    let mut out: Vec<String> = Vec::new();
    let mut n: usize = 0;
    proof {
        assert(texts(out@) =~= seq![]);
    }
    while n < words.len()
        invariant
            n <= words@.len(),
            ws == lists(words@),
            texts(out@) == unknown_words(ws, n as nat),
        decreases words@.len() - n,
    {
        let w = words[n].as_slice();
        let ghost before = out@;
        if w.len() > 0 && mode_named(w).is_none() {
            let t = text_of_chars(w);
            out.push(t);
            proof {
                assert(texts(out@) =~= texts(before).push(w@));
            }
        }
        n += 1;
    }
    out
}

/// The characters of the first `n` that the vocabulary knows, or does not.
pub open spec fn sifted(v: &Vocab, s: Seq<char>, known: bool, n: nat) -> Seq<char>
    decreases n,
{
    if n == 0 {
        seq![]
    } else {
        let before = sifted(v, s, known, (n - 1) as nat);
        if v.knows(s[n - 1]) == known {
            before.push(s[n - 1])
        } else {
            before
        }
    }
}

/// A prompt without the characters that the vocabulary does not know, and those
/// characters.
pub fn filter_prompt(vocab: &Vocab, raw: &str) -> (r: (String, String))
    requires
        vocab.wf(),
    ensures
        r.0@ == sifted(vocab, raw@, true, raw@.len()),
        r.1@ == sifted(vocab, raw@, false, raw@.len()),
        vocab.covers(r.0@),
{
    let all = chars_of(raw);
    let mut kept = String::new();
    let mut dropped = String::new();
    let mut n: usize = 0;
    while n < all.len()
        invariant
            n <= all@.len(),
            all@ == raw@,
            vocab.wf(),
            kept@ == sifted(vocab, raw@, true, n as nat),
            dropped@ == sifted(vocab, raw@, false, n as nat),
            vocab.covers(kept@),
        decreases all@.len() - n,
    {
        let c = all[n];
        if vocab.can_encode_char(c) {
            kept.push(c);
        } else {
            dropped.push(c);
        }
        n += 1;
    }
    (kept, dropped)
}

/// What the program is asked to do.
pub enum Command {
    /// The demonstrations.
    Demo,
    /// Training on the full corpus, fresh or going on from a checkpoint.
    Shakespeare { large: bool, cuda: bool, resume: Option<String> },
    /// Samples from a checkpoint, for a prompt or for the usual ones.
    Sample { path: String, prompt: Option<String> },
    /// Samples without a checkpoint: how to ask is explained.
    SampleUsage,
    /// Matrix products timed on both processors.
    CudaDemo,
    /// Forward passes timed on both processors.
    CudaForwardBench,
    /// Training steps on a graphics processor.
    CudaTrainDemo,
}

/// A command as mathematics sees it.
pub enum Asked {
    Demo,
    Shakespeare { large: bool, cuda: bool, resume: Option<Seq<char>> },
    Sample { path: Seq<char>, prompt: Option<Seq<char>> },
    SampleUsage,
    CudaDemo,
    CudaForwardBench,
    CudaTrainDemo,
}

/// An optional text as characters.
pub open spec fn opt_text(o: Option<String>) -> Option<Seq<char>> {
    match o {
        Some(s) => Some(s@),
        None => None,
    }
}

impl View for Command {
    type V = Asked;

    open spec fn view(&self) -> Asked {
        match *self {
            Command::Demo => Asked::Demo,
            Command::Shakespeare { large, cuda, resume } => Asked::Shakespeare {
                large,
                cuda,
                resume: opt_text(resume),
            },
            Command::Sample { path, prompt } => Asked::Sample {
                path: path@,
                prompt: opt_text(prompt),
            },
            Command::SampleUsage => Asked::SampleUsage,
            Command::CudaDemo => Asked::CudaDemo,
            Command::CudaForwardBench => Asked::CudaForwardBench,
            Command::CudaTrainDemo => Asked::CudaTrainDemo,
        }
    }
}

/// The texts from `from` up to `to`, joined by single spaces.
pub open spec fn joined(a: Seq<Seq<char>>, from: nat, to: nat) -> Seq<char>
    decreases to - from,
{
    if from >= to {
        seq![]
    } else if from + 1 == to {
        a[from as int]
    } else {
        joined(a, from, (to - 1) as nat).push(' ') + a[to - 1]
    }
}

/// The argument at a place, where there is one.
pub open spec fn arg_at(a: Seq<Seq<char>>, i: int) -> Option<Seq<char>> {
    if i < a.len() {
        Some(a[i])
    } else {
        None
    }
}

/// What the arguments ask for; the first is the program's own name.
pub open spec fn asked(a: Seq<Seq<char>>) -> Asked {
    if a.len() <= 1 {
        Asked::Demo
    } else if a[1] == "shakespeare"@ || a[1] == "shakespeare-large"@ {
        Asked::Shakespeare {
            large: a[1] == "shakespeare-large"@,
            cuda: false,
            resume: arg_at(a, 2),
        }
    } else if a[1] == "sample"@ {
        if a.len() <= 2 {
            Asked::SampleUsage
        } else {
            Asked::Sample {
                path: a[2],
                prompt: if a.len() > 3 {
                    Some(joined(a, 3, a.len()))
                } else {
                    None
                },
            }
        }
    } else if a[1] == "cuda-shakespeare"@ || a[1] == "cuda-shakespeare-large"@ {
        Asked::Shakespeare {
            large: a[1] == "cuda-shakespeare-large"@,
            cuda: true,
            resume: arg_at(a, 2),
        }
    } else if a[1] == "cuda-demo"@ {
        Asked::CudaDemo
    } else if a[1] == "cuda-forward-bench"@ {
        Asked::CudaForwardBench
    } else if a[1] == "cuda-train-demo"@ {
        Asked::CudaTrainDemo
    } else {
        Asked::Demo
    }
}

/// Whether two texts are the same.
fn same_text(a: &str, b: &str) -> (r: bool)
    ensures
        r == (a@ == b@),
{
    let chars = chars_of(a);
    spells(chars.as_slice(), b)
}

/// The argument at a place, where there is one.
fn arg_text(args: &[String], i: usize) -> (r: Option<String>)
    ensures
        opt_text(r) == arg_at(texts(args@), i as int),
{
    if i < args.len() {
        Some(args[i].clone())
    } else {
        None
    }
}

/// The arguments from `from` on, joined by single spaces.
fn join_from(args: &[String], from: usize) -> (r: String)
    requires
        from < args@.len(),
    ensures
        r@ == joined(texts(args@), from as nat, args@.len()),
{
    let ghost a = texts(args@);
    let mut out = args[from].clone();
    let mut i: usize = from + 1;
    while i < args.len()
        invariant
            from < i <= args@.len(),
            a == texts(args@),
            out@ == joined(a, from as nat, i as nat),
        decreases args@.len() - i,
    {
        let more = chars_of(args[i].as_str());
        out.push(' ');
        let ghost head = out@;
        let mut k: usize = 0;
        while k < more.len()
            invariant
                k <= more@.len(),
                out@ =~= head + more@.take(k as int),
            decreases more@.len() - k,
        {
            out.push(more[k]);
            k += 1;
        }
        proof {
            assert(more@.take(k as int) =~= more@);
            assert(a[i as int] == more@);
        }
        i += 1;
    }
    out
}

/// What the arguments ask for; the first is the program's own name.
pub fn parse_args(args: &[String]) -> (r: Command)
    ensures
        r@ == asked(texts(args@)),
{
    if args.len() <= 1 {
        return Command::Demo;
    }
    let name = args[1].as_str();
    proof {
        assert(texts(args@)[1] == name@);
    }
    let large = same_text(name, "shakespeare-large");
    if large || same_text(name, "shakespeare") {
        return Command::Shakespeare { large, cuda: false, resume: arg_text(args, 2) };
    }
    if same_text(name, "sample") {
        if args.len() <= 2 {
            return Command::SampleUsage;
        }
        let prompt = if args.len() > 3 {
            Some(join_from(args, 3))
        } else {
            None
        };
        return Command::Sample { path: args[2].clone(), prompt };
    }
    let cuda_large = same_text(name, "cuda-shakespeare-large");
    if cuda_large || same_text(name, "cuda-shakespeare") {
        return Command::Shakespeare { large: cuda_large, cuda: true, resume: arg_text(args, 2) };
    }
    if same_text(name, "cuda-demo") {
        return Command::CudaDemo;
    }
    if same_text(name, "cuda-forward-bench") {
        return Command::CudaForwardBench;
    }
    if same_text(name, "cuda-train-demo") {
        return Command::CudaTrainDemo;
    }
    Command::Demo
}

} // verus!
