//! What the handling of texts does: merges and counts of tokens, and the settings and
//! prompts that are read from the command line.
use crate::bpe::{best_pair, learned, lemma_has_best, merged, new_token, not_worse, pair_count};
use crate::cli::{
    all_modes, asked, chosen, is_space, joined, lead, lower_char, lowered, mode_of, modes_of,
    parts_of, sifted, trail, trimmed, unknown_words, wanted, words_of, Asked, SampleMode,
};
use crate::data::Vocab;
use vstd::prelude::*;

verus! {

/// Pairs are counted at every place: a token more adds one to the count of the pair that it
/// makes with the last, and to no other.
pub proof fn law_pairs_are_counted_everywhere(s: Seq<u32>, x: u32, p: (u32, u32))
    ensures
        s.len() == 0 ==> pair_count(s.push(x), p) == 0,
        s.len() > 0 ==> pair_count(s.push(x), p) == pair_count(s, p) + if (s.last(), x) == p {
            1nat
        } else {
            0nat
        },
        pair_count(Seq::empty(), p) == 0,
{
    let t = s.push(x);
    assert(t.drop_last() =~= s);
    if s.len() > 0 {
        assert(t[t.len() - 2] == s.last());
        if s.len() == 1 {
            reveal_with_fuel(pair_count, 2);
        }
    }
}

/// The first merge that is learned joins the pair that occurs most often, and of several the
/// first in order; the others are learned from what it makes of the stream. Nothing is
/// learned only where nothing may be or no pair occurs twice.
pub proof fn law_most_frequent_pair_is_merged(
    s: Seq<u32>,
    rank: nat,
    left: nat,
    q: (u32, u32),
)
    requires
        256 + rank <= u32::MAX,
    ensures
        left > 0 && pair_count(s, q) >= 2 ==> learned(s, rank, left).len() > 0,
        learned(s, rank, left).len() > 0 ==> {
            let p = learned(s, rank, left)[0];
            &&& pair_count(s, p) >= 2
            &&& pair_count(s, q) <= pair_count(s, p)
            &&& pair_count(s, q) == pair_count(s, p) ==> p.0 < q.0 || (p.0 == q.0 && p.1 <= q.1)
            &&& learned(s, rank, left).skip(1) == learned(
                merged(s, p, (256 + rank) as u32),
                rank + 1,
                (left - 1) as nat,
            )
        },
        learned(s, rank, left).len() <= left,
    decreases left,
{
    let all = learned(s, rank, left);
    if left > 0 && crate::bpe::repeats(s) {
        lemma_has_best(s);
        let p = best_pair(s);
        assert(not_worse(s, p, q));
        let rest = learned(merged(s, p, new_token(rank)), rank + 1, (left - 1) as nat);
        assert(all.skip(1) =~= rest);
        lemma_learned_bound(merged(s, p, new_token(rank)), rank + 1, (left - 1) as nat);
    }
}

/// No more merges are learned than may be.
proof fn lemma_learned_bound(s: Seq<u32>, rank: nat, left: nat)
    ensures
        learned(s, rank, left).len() <= left,
    decreases left,
{
    if left > 0 && crate::bpe::repeats(s) {
        lemma_learned_bound(
            merged(s, best_pair(s), new_token(rank)),
            rank + 1,
            (left - 1) as nat,
        );
    }
}

/// After a pair was merged into a token of its own, it occurs nowhere.
pub proof fn law_merge_leaves_no_pair(s: Seq<u32>, p: (u32, u32), id: u32, j: int)
    requires
        id != p.0,
        id != p.1,
        0 <= j < merged(s, p, id).len() - 1,
    ensures
        (merged(s, p, id)[j], merged(s, p, id)[j + 1]) != p,
    decreases s.len(),
{
    let r = merged(s, p, id);
    let joins = s.len() >= 2 && s[0] == p.0 && s[1] == p.1;
    let rest = if joins {
        s.skip(2)
    } else {
        s.skip(1)
    };
    let t = merged(rest, p, id);
    assert(r.skip(1) =~= t);
    if j > 0 {
        law_merge_leaves_no_pair(rest, p, id, j - 1);
        assert(r[j] == t[j - 1] && r[j + 1] == t[j]);
    } else {
        assert(r[1] == t[0]);
        lemma_merged_first(rest, p, id);
    }
}

/// A stream is merged from the left: where it starts with the pair, the two are joined and
/// the rest is merged; else its first token stays.
pub proof fn law_merge_goes_from_the_left(a: u32, b: u32, s: Seq<u32>, p: (u32, u32), id: u32)
    ensures
        (a, b) == p ==> merged(seq![a, b] + s, p, id) == seq![id] + merged(s, p, id),
        (a, b) != p ==> merged(seq![a, b] + s, p, id) == seq![a] + merged(seq![b] + s, p, id),
        merged(seq![a], p, id) == seq![a],
        merged(Seq::empty(), p, id) == Seq::<u32>::empty(),
{
    let t = seq![a, b] + s;
    assert(t.skip(2) =~= s);
    assert(t.skip(1) =~= seq![b] + s);
    assert(t[0] == a && t[1] == b);
    assert(seq![a].skip(1) =~= Seq::empty());
    assert(merged(seq![a].skip(1), p, id) =~= Seq::empty());
    assert(merged(seq![a], p, id) =~= seq![a]);
}

/// The first token after a merge.
proof fn lemma_merged_first(s: Seq<u32>, p: (u32, u32), id: u32)
    ensures
        (merged(s, p, id).len() == 0) == (s.len() == 0),
        s.len() > 0 ==> merged(s, p, id)[0] == s[0] || merged(s, p, id)[0] == id,
{
}

/// A stream with a token taken apart again into a pair.
pub open spec fn parted(s: Seq<u32>, p: (u32, u32), id: u32) -> Seq<u32>
    decreases s.len(),
{
    if s.len() == 0 {
        seq![]
    } else if s[0] == id {
        seq![p.0, p.1] + parted(s.skip(1), p, id)
    } else {
        seq![s[0]] + parted(s.skip(1), p, id)
    }
}

/// A merge into a new token loses nothing: taking the token apart gives the stream back.
pub proof fn law_merge_can_be_taken_apart(s: Seq<u32>, p: (u32, u32), id: u32)
    requires
        !s.contains(id),
    ensures
        parted(merged(s, p, id), p, id) == s,
        merged(s, p, id).len() <= s.len(),
    decreases s.len(),
{
    if s.len() > 0 {
        let joins = s.len() >= 2 && s[0] == p.0 && s[1] == p.1;
        let rest = if joins {
            s.skip(2)
        } else {
            s.skip(1)
        };
        assert forall|k: int| 0 <= k < rest.len() implies #[trigger] rest[k] != id by {
            assert(s.contains(s[k + (s.len() - rest.len())]));
        }
        law_merge_can_be_taken_apart(rest, p, id);
        let r = merged(s, p, id);
        assert(r.skip(1) =~= merged(rest, p, id));
        assert(s.contains(s[0]));
        assert(parted(r, p, id) =~= s);
    }
}

/// Sifting goes character by character: it keeps a character exactly where the vocabulary
/// knows it as asked, and the order of what it keeps.
pub proof fn law_sifting_keeps_order(v: &Vocab, s: Seq<char>, c: char, known: bool)
    ensures
        sifted(v, Seq::empty(), known, 0) == Seq::<char>::empty(),
        sifted(v, s.push(c), known, (s.len() + 1) as nat) == if v.knows(c) == known {
            sifted(v, s, known, s.len()).push(c)
        } else {
            sifted(v, s, known, s.len())
        },
{
    lemma_sifted_alone(v, s, s.push(c), known, s.len());
}

/// What is sifted from the first characters does not depend on the others.
proof fn lemma_sifted_alone(v: &Vocab, s: Seq<char>, t: Seq<char>, known: bool, n: nat)
    requires
        n <= s.len(),
        n <= t.len(),
        forall|k: int| 0 <= k < n ==> #[trigger] s[k] == t[k],
    ensures
        sifted(v, s, known, n) == sifted(v, t, known, n),
    decreases n,
{
    if n > 0 {
        lemma_sifted_alone(v, s, t, known, (n - 1) as nat);
        assert(s[n - 1] == t[n - 1]);
    }
}

/// What is kept of a prompt and what is dropped make up the prompt.
pub proof fn law_sifting_parts_a_prompt(v: &Vocab, s: Seq<char>, n: nat)
    requires
        n <= s.len(),
    ensures
        sifted(v, s, true, n).len() + sifted(v, s, false, n).len() == n,
        forall|k: int|
            0 <= k < sifted(v, s, true, n).len() ==> v.knows(#[trigger] sifted(v, s, true, n)[k]),
        forall|k: int|
            0 <= k < sifted(v, s, false, n).len() ==> !v.knows(
                #[trigger] sifted(v, s, false, n)[k],
            ),
        v.covers(s.take(n as int)) ==> sifted(v, s, true, n) == s.take(n as int),
    decreases n,
{
    if n > 0 {
        let p = (n - 1) as nat;
        law_sifting_parts_a_prompt(v, s, p);
        if v.covers(s.take(n as int)) {
            assert forall|k: int| 0 <= k < p implies v.knows(#[trigger] s.take(p as int)[k]) by {
                assert(s.take(n as int)[k] == s[k]);
            }
            assert(v.knows(s.take(n as int)[p as int]));
            assert(s.take(n as int) =~= s.take(p as int).push(s[p as int]));
        }
    } else {
        assert(s.take(0) =~= Seq::empty());
    }
}

/// A trimmed text starts and ends with no white space, and what was taken off is nothing
/// else.
pub proof fn law_trimming_takes_white_space(s: Seq<char>)
    ensures
        trimmed(s).len() > 0 ==> !is_space(trimmed(s)[0]) && !is_space(trimmed(s).last()),
        exists|a: Seq<char>, b: Seq<char>| #[trigger]
            (a + trimmed(s) + b) == s && blank_text(a) && blank_text(b),
{
    lemma_lead(s, 0);
    let i = lead(s, 0);
    lemma_trail(s, i, s.len());
    let j = trail(s, i, s.len());
    let (a, b) = (s.take(i as int), s.skip(j as int));
    assert(a + trimmed(s) + b =~= s);
    assert(blank_text(a) && blank_text(b));
}

/// A text of white space.
pub open spec fn blank_text(s: Seq<char>) -> bool {
    forall|k: int| 0 <= k < s.len() ==> is_space(#[trigger] s[k])
}

/// Where leading white space ends.
proof fn lemma_lead(s: Seq<char>, i: nat)
    requires
        i <= s.len(),
        forall|k: int| 0 <= k < i ==> is_space(#[trigger] s[k]),
    ensures
        i <= lead(s, i) <= s.len(),
        forall|k: int| 0 <= k < lead(s, i) ==> is_space(#[trigger] s[k]),
        lead(s, i) < s.len() ==> !is_space(s[lead(s, i) as int]),
    decreases s.len() - i,
{
    if i < s.len() && is_space(s[i as int]) {
        lemma_lead(s, i + 1);
    }
}

/// Where trailing white space starts.
proof fn lemma_trail(s: Seq<char>, start: nat, end: nat)
    requires
        start <= end <= s.len(),
        forall|k: int| end <= k < s.len() ==> is_space(#[trigger] s[k]),
    ensures
        start <= trail(s, start, end) <= end,
        forall|k: int| trail(s, start, end) <= k < s.len() ==> is_space(#[trigger] s[k]),
        trail(s, start, end) > start ==> !is_space(s[trail(s, start, end) - 1]),
    decreases end,
{
    if start < end && is_space(s[end - 1]) {
        lemma_trail(s, start, (end - 1) as nat);
    }
}

/// The letters A to Z become those 32 further on, and nothing else changes.
pub proof fn law_letters_are_lowered(c: char)
    ensures
        'A' as u32 <= c as u32 <= 'Z' as u32 ==> lower_char(c) as u32 == c as u32 + 32,
        !('A' as u32 <= c as u32 <= 'Z' as u32) ==> lower_char(c) == c,
        lower_char(lower_char(c)) == lower_char(c),
{
}

/// The parts between commas: a comma starts a new one, and every other character is added
/// to the last.
pub proof fn law_commas_part(s: Seq<char>, c: char)
    ensures
        parts_of(Seq::empty()) == seq![Seq::<char>::empty()],
        parts_of(s).len() >= 1,
        c == ',' ==> parts_of(s.push(c)) == parts_of(s).push(Seq::empty()),
        c != ',' ==> {
            &&& parts_of(s.push(c)).len() == parts_of(s).len()
            &&& parts_of(s.push(c)).last() == parts_of(s).last().push(c)
            &&& parts_of(s.push(c)).drop_last() == parts_of(s).drop_last()
        },
    decreases s.len(),
{
    assert(s.push(c).drop_last() =~= s);
    if s.len() > 0 {
        law_commas_part(s.drop_last(), s.last());
        assert(s.drop_last().push(s.last()) =~= s);
    }
    if c != ',' {
        assert(parts_of(s.push(c)).drop_last() =~= parts_of(s).drop_last());
    }
}

/// A pass is chosen exactly where some word names it, and chosen once; the passes come in
/// the one order whatever the order of the words.
pub proof fn law_passes_are_chosen_once(words: Seq<Seq<char>>, n: nat, m: SampleMode)
    requires
        n <= 6,
    ensures
        chosen(words, n).contains(m) <==> wanted(words, m) && all_modes().take(n as int).contains(m),
        forall|i: int, j: int|
            0 <= i < j < chosen(words, n).len() ==> mode_place(#[trigger] chosen(words, n)[i])
                < mode_place(#[trigger] chosen(words, n)[j]),
        forall|i: int|
            0 <= i < chosen(words, n).len() ==> mode_place(#[trigger] chosen(words, n)[i]) < n,
        all_modes().contains(m),
    decreases n,
{
    assert(all_modes()[mode_place(m) as int] == m);
    if n > 0 {
        let p = (n - 1) as nat;
        law_passes_are_chosen_once(words, p, m);
        let (a, b) = (chosen(words, p), chosen(words, n));
        let x = all_modes()[p as int];
        let (t, u) = (all_modes().take(p as int), all_modes().take(n as int));
        assert(u =~= t.push(x));
        assert(u.contains(m) <==> t.contains(m) || m == x) by {
            assert(u[p as int] == x);
            if t.contains(m) {
                let k = choose|k: int| 0 <= k < t.len() && t[k] == m;
                assert(u[k] == m);
            }
        }
        if wanted(words, x) {
            assert(b == a.push(x));
            assert(b[a.len() as int] == x);
            if a.contains(m) {
                let k = choose|k: int| 0 <= k < a.len() && a[k] == m;
                assert(b[k] == m);
            }
        }
    } else {
        assert(all_modes().take(0) =~= Seq::empty());
    }
}

/// The place of a pass among all.
pub open spec fn mode_place(m: SampleMode) -> nat {
    match m {
        SampleMode::Greedy => 0,
        SampleMode::Temp08 => 1,
        SampleMode::TopK => 2,
        SampleMode::TopP => 3,
        SampleMode::TopP05 => 4,
        SampleMode::KvCache => 5,
    }
}

/// A word is reported exactly where it is not empty and names no pass.
pub proof fn law_unknown_words_are_reported(words: Seq<Seq<char>>, n: nat, w: Seq<char>)
    requires
        n <= words.len(),
    ensures
        unknown_words(words, n).contains(w) <==> words.take(n as int).contains(w) && w.len() > 0
            && mode_of(w) is None,
    decreases n,
{
    if n > 0 {
        let p = (n - 1) as nat;
        law_unknown_words_are_reported(words, p, w);
        let (a, b) = (unknown_words(words, p), unknown_words(words, n));
        let x = words[p as int];
        let (t, u) = (words.take(p as int), words.take(n as int));
        assert(u =~= t.push(x));
        assert(u.contains(w) <==> t.contains(w) || w == x) by {
            assert(u[p as int] == x);
            if t.contains(w) {
                let k = choose|k: int| 0 <= k < t.len() && t[k] == w;
                assert(u[k] == w);
            }
        }
        if x.len() > 0 && mode_of(x) is None {
            assert(b == a.push(x));
            assert(b[a.len() as int] == x);
            if a.contains(w) {
                let k = choose|k: int| 0 <= k < a.len() && a[k] == w;
                assert(b[k] == w);
            }
        }
    } else {
        assert(words.take(0) =~= Seq::empty());
    }
}

/// Texts are joined in order with one space between two: those up to a place and those from
/// it on, joined, with a space between them.
pub proof fn law_texts_are_joined_in_order(a: Seq<Seq<char>>, from: nat, mid: nat, to: nat)
    requires
        from < mid < to <= a.len(),
    ensures
        joined(a, from, to) == joined(a, from, mid).push(' ') + joined(a, mid, to),
        joined(a, from, from + 1) == a[from as int],
    decreases to - mid,
{
    if mid + 1 == to {
    } else {
        law_texts_are_joined_in_order(a, from, mid, (to - 1) as nat);
        assert(joined(a, from, to) =~= joined(a, from, mid).push(' ') + joined(a, mid, to));
    }
}

/// The commands for the device differ from those for the machine's own processor only in
/// that: the same arguments after them ask for the same.
pub proof fn law_device_commands_match(a: Seq<Seq<char>>, b: Seq<Seq<char>>)
    requires
        a.len() == b.len(),
        a.len() >= 2,
        a.skip(2) == b.skip(2),
        (a[1] == "shakespeare"@ && b[1] == "cuda-shakespeare"@) || (a[1] == "shakespeare-large"@
            && b[1] == "cuda-shakespeare-large"@),
    ensures
        asked(a) matches Asked::Shakespeare { large, cuda, resume } && !cuda && large == (a[1]
            == "shakespeare-large"@) && asked(b) == (Asked::Shakespeare {
            large,
            cuda: true,
            resume,
        }) && (a.len() == 2 ==> resume is None) && (a.len() > 2 ==> resume == Some(a[2])),
{
    reveal_strlit("shakespeare");
    reveal_strlit("shakespeare-large");
    reveal_strlit("cuda-shakespeare");
    reveal_strlit("cuda-shakespeare-large");
    reveal_strlit("sample");
    assert("shakespeare"@.len() == 11 && "shakespeare-large"@.len() == 17);
    assert("cuda-shakespeare"@.len() == 16 && "cuda-shakespeare-large"@.len() == 22);
    assert("sample"@.len() == 6);
    if a.len() > 2 {
        assert(a.skip(2)[0] == b.skip(2)[0]);
    }
}

/// A setting of nothing but white space asks for every pass, and one that is no word for a
/// group asks for the passes that its words name and reports the others; a word is what
/// stands between two commas, without white space and in small letters.
pub proof fn law_setting_asks_by_name(raw: Seq<char>, m: SampleMode, w: Seq<char>)
    ensures
        blank_text(raw) ==> modes_of(raw).0.contains(m) && modes_of(raw).1.len() == 0,
        ({
            let s = lowered(trimmed(raw));
            let words = Seq::new(parts_of(s).len(), |i: int| trimmed(parts_of(s)[i]));
            s.len() > 0 && s != "all"@ && s != "min"@ && s != "minimal"@ && s != "none"@ ==> {
                &&& modes_of(raw).0.contains(m) <==> exists|i: int|
                    0 <= i < words.len() && mode_of(#[trigger] words[i]) == Some(m)
                &&& modes_of(raw).1.contains(w) <==> words.contains(w) && w.len() > 0 && mode_of(w)
                    is None
            }
        }),
{
    let s = lowered(trimmed(raw));
    let words = words_of(s);
    law_passes_are_chosen_once(words, 6, m);
    assert(all_modes().take(6) =~= all_modes());
    law_unknown_words_are_reported(words, words.len(), w);
    assert(words.take(words.len() as int) =~= words);
    law_trimming_takes_white_space(raw);
    if blank_text(raw) && trimmed(raw).len() > 0 {
        lemma_lead(raw, 0);
        lemma_trail(raw, lead(raw, 0), raw.len());
        assert(trimmed(raw)[0] == raw[lead(raw, 0) as int]);
    }
}

/// The command for samples takes a path, and what follows it is the prompt: with one more
/// argument it goes on by a space and that argument.
pub proof fn law_sample_command_takes_rest(a: Seq<Seq<char>>, w: Seq<char>)
    requires
        a.len() >= 2,
        a[1] == "sample"@,
    ensures
        a.len() == 2 ==> asked(a) == Asked::SampleUsage,
        a.len() == 3 ==> asked(a) == (Asked::Sample { path: a[2], prompt: None }),
        a.len() == 3 ==> asked(a.push(w)) == (Asked::Sample { path: a[2], prompt: Some(w) }),
        a.len() > 3 ==> {
            &&& asked(a) matches Asked::Sample { path, prompt } && path == a[2] && prompt is Some
                && asked(a.push(w)) == (Asked::Sample {
                path,
                prompt: Some(prompt->0.push(' ') + w),
            })
        },
{
    reveal_strlit("shakespeare");
    reveal_strlit("shakespeare-large");
    reveal_strlit("sample");
    assert("shakespeare"@.len() == 11 && "shakespeare-large"@.len() == 17);
    assert("sample"@.len() == 6);
    let b = a.push(w);
    assert(b[1] == a[1] && b[2] == a.push(w)[2]);
    if a.len() > 3 {
        lemma_joined_alone(a, b, 3, a.len());
        assert(b[a.len() as int] == w);
    }
}

/// Joined texts do not depend on those after them.
proof fn lemma_joined_alone(a: Seq<Seq<char>>, b: Seq<Seq<char>>, from: nat, to: nat)
    requires
        from < to <= a.len(),
        to <= b.len(),
        forall|k: int| 0 <= k < to ==> #[trigger] a[k] == b[k],
    ensures
        joined(a, from, to) == joined(b, from, to),
    decreases to - from,
{
    assert(a[to - 1] == b[to - 1] && a[from as int] == b[from as int]);
    if from + 1 < to {
        lemma_joined_alone(a, b, from, (to - 1) as nat);
    }
}

} // verus!
