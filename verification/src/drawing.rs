//! What draws mean: which token a drawn number gives, in every mode.
use crate::data::{lcg_next, unit_of};
use crate::exact::{divisor, exact_div, exact_exp, exact_share, exps_multiply, shares_out};
use crate::float::{fadd, fbits, fcount, fdiv, feq, fexp, flt, fmul, fone, fsub, fsum, fzero, Float};
use crate::identities::{ring, ring_add, ring_mul, ring_product, ring_sub, ring_sum};
use crate::inference::{
    argmax_of, choice_of, comparable, context_of, generated, lemma_ranked_item, lemma_ranked_len,
    mass_cutoff, mass_onto, masses, next_logits, picked, rank_place, ranked, reaches, renormalised,
    state_after, states_after, tempered, tempered_softmax, SamplingMode,
};
use crate::layout::ModelOf;
use crate::model::{lcg_skip, lemma_skip_on, logits_of, ModelConfig};
use crate::ops::{row_max, shifted_exps};
use crate::tensor::Array;
use vstd::prelude::*;

verus! {

/// The mass of the first `k` items, added up from the left.
pub open spec fn mass_below<T: Float>(s: Seq<T>, k: int) -> T {
    fsum(s.take(k))
}

/// Place `i` is the first whose running sum passes `u`, or the last where none does.
pub open spec fn falls_on<T: Float>(s: Seq<T>, u: T, i: int) -> bool {
    &&& 0 <= i < s.len()
    &&& forall|j: int| 0 <= j < i ==> !#[trigger] flt(u, mass_below(s, j + 1))
    &&& i + 1 < s.len() ==> flt(u, mass_below(s, i + 1))
}

/// A walk from place `i` on ends where the draw falls.
proof fn lemma_walk<T: Float>(s: Seq<T>, u: T, i: nat)
    requires
        i <= s.len(),
        s.len() > 0,
        forall|j: int| 0 <= j < i ==> !#[trigger] flt(u, mass_below(s, j + 1)),
    ensures
        falls_on(s, u, picked(s, u, i, mass_below(s, i as int)) as int),
    decreases s.len() - i,
{
    if i < s.len() {
        let c = fadd(mass_below(s, i as int), s[i as int]);
        assert(s.take((i + 1) as int).drop_last() =~= s.take(i as int));
        assert(c == mass_below(s, (i + 1) as int));
        if !flt(u, c) {
            lemma_walk(s, u, i + 1);
        }
    }
}

/// A draw falls on one place only.
pub proof fn law_draw_falls_once<T: Float>(s: Seq<T>, u: T, i: int, j: int)
    requires
        falls_on(s, u, i),
        falls_on(s, u, j),
    ensures
        i == j,
{
    if i < j {
        assert(!flt(u, mass_below(s, i + 1)));
    }
    if j < i {
        assert(!flt(u, mass_below(s, j + 1)));
    }
}

/// At a temperature a token is given exactly for the draws that fall on it: not below the
/// mass of any token before it, taken with those before that, and below its own.
pub proof fn law_temperature_draws_by_mass<T: Float>(logits: Seq<T>, temperature: T, u: T, i: int)
    requires
        logits.len() > 0,
    ensures
        choice_of(logits, SamplingMode::Temperature { temperature }, u) == i <==> falls_on(
            tempered_softmax(logits, temperature),
            u,
            i,
        ),
{
    let p = tempered_softmax(logits, temperature);
    assert(p.take(0) =~= Seq::<T>::empty());
    lemma_walk(p, u, 0);
    let c = choice_of(logits, SamplingMode::Temperature { temperature }, u) as int;
    if falls_on(p, u, i) {
        law_draw_falls_once(p, u, i, c);
    }
}

/// Any token whose own mass lifts the sum above all before it is given for some draw: the
/// one that is the sum before it.
pub proof fn law_every_likely_token_is_drawn<T: Float>(logits: Seq<T>, temperature: T, i: int)
    requires
        0 <= i < logits.len(),
        ({
            let p = tempered_softmax(logits, temperature);
            &&& flt(mass_below(p, i), mass_below(p, i + 1))
            &&& forall|j: int|
                0 <= j < i ==> !#[trigger] flt(mass_below(p, i), mass_below(p, j + 1))
        }),
    ensures
        choice_of(
            logits,
            SamplingMode::Temperature { temperature },
            mass_below(tempered_softmax(logits, temperature), i),
        ) == i,
{
    let p = tempered_softmax(logits, temperature);
    law_temperature_draws_by_mass(logits, temperature, mass_below(p, i), i);
}

/// To divide is to multiply by the reciprocal.
#[verifier::opaque]
pub open spec fn reciprocals<T: Float>() -> bool {
    forall|a: T, d: T| #[trigger] fdiv(a, d) == fmul(a, fdiv(fone::<T>(), d))
}

/// A quotient as a product.
pub proof fn exact_reciprocal<T: Float>(a: T, d: T)
    requires
        reciprocals::<T>(),
    ensures
        fdiv(a, d) == fmul(a, fdiv(fone::<T>(), d)),
{
    reveal(reciprocals);
}

/// An exponential over a divisor, times another exponential.
proof fn lemma_share_times<T: Float>(a: T, b: T, m: T, d: T)
    requires
        ring::<T>(),
        exps_multiply::<T>(),
        reciprocals::<T>(),
    ensures
        fmul(fdiv(fexp(fsub(a, m)), d), fexp(b)) == fmul(
            fexp(fsub(fadd(a, b), m)),
            fdiv(fone::<T>(), d),
        ),
{
    let r = fdiv(fone::<T>(), d);
    let e = fexp(fsub(a, m));
    exact_reciprocal(e, d);
    ring_product(e, r, fexp(b));
    ring_mul(r, fexp(b));
    ring_product(e, fexp(b), r);
    exact_exp(fsub(a, m), b);
    let n = crate::float::fneg(m);
    ring_sub(a, m);
    ring_sum(a, n, b);
    ring_add(n, b);
    ring_sum(a, b, n);
    ring_sub(fadd(a, b), m);
}

/// Probabilities follow the logits over the temperature: those of two tokens stand to each
/// other as the exponentials of their logits divided by the temperature.
pub proof fn law_probabilities_follow_logits<T: Float>(
    logits: Seq<T>,
    temperature: T,
    i: int,
    j: int,
)
    requires
        ring::<T>(),
        exps_multiply::<T>(),
        reciprocals::<T>(),
        flt(fbits::<T>(0x3586_37BD), temperature),
        0 <= i < logits.len(),
        0 <= j < logits.len(),
        !feq(fsum(shifted_exps(tempered(logits, temperature))), fzero::<T>()),
    ensures
        tempered_softmax(logits, temperature).len() == logits.len(),
        fmul(
            tempered_softmax(logits, temperature)[i],
            fexp(fdiv(logits[j], temperature)),
        ) == fmul(
            tempered_softmax(logits, temperature)[j],
            fexp(fdiv(logits[i], temperature)),
        ),
{
    let s = tempered(logits, temperature);
    let (m, d) = (row_max(s), fsum(shifted_exps(s)));
    exact_reciprocal(logits[i], temperature);
    exact_reciprocal(logits[j], temperature);
    lemma_share_times(s[i], s[j], m, d);
    lemma_share_times(s[j], s[i], m, d);
    ring_add(s[i], s[j]);
}

/// Where every exponential vanishes, all tokens are as likely: each probability times their
/// number is one.
pub proof fn law_vanished_logits_are_even<T: Float>(logits: Seq<T>, temperature: T, i: int)
    requires
        shares_out::<T>(),
        0 <= i < logits.len() <= usize::MAX,
        feq(fsum(shifted_exps(tempered(logits, temperature))), fzero::<T>()),
    ensures
        tempered_softmax(logits, temperature).len() == logits.len(),
        fmul(fcount::<T>(logits.len() as usize), tempered_softmax(logits, temperature)[i]) == fone::<
            T,
        >(),
{
    exact_share(fone::<T>(), logits.len() as usize);
}

/// A list of kept tokens is shared out anew: every mass times the sum of all is what it was,
/// and where the sum is not above zero, all are as likely. The tokens stay.
pub proof fn law_kept_masses_are_shared_out<T: Float>(list: Seq<(usize, T)>, k: int)
    requires
        shares_out::<T>(),
        0 <= k < list.len() <= usize::MAX,
    ensures
        renormalised(list).len() == list.len(),
        renormalised(list)[k].0 == list[k].0,
        ({
            let total = fsum(Seq::new(list.len(), |q: int| list[q].1));
            &&& flt(fzero::<T>(), total) && divisor(total) ==> fmul(total, renormalised(list)[k].1)
                == list[k].1
            &&& !flt(fzero::<T>(), total) ==> fmul(
                fcount::<T>(list.len() as usize),
                renormalised(list)[k].1,
            ) == fone::<T>()
        }),
{
    let total = fsum(Seq::new(list.len(), |q: int| list[q].1));
    assert(masses(list) =~= Seq::new(list.len(), |q: int| list[q].1));
    exact_share(fone::<T>(), list.len() as usize);
    if divisor(total) {
        exact_div(list[k].1, total);
    }
}

/// Temperatures of a millionth and below are one.
pub proof fn law_temperature_has_floor<T: Float>(logits: Seq<T>, low: T, lower: T)
    requires
        !flt(fbits::<T>(0x3586_37BD), low),
        !flt(fbits::<T>(0x3586_37BD), lower),
    ensures
        tempered_softmax(logits, low) == tempered_softmax(logits, lower),
{
    assert(tempered(logits, low) =~= tempered(logits, lower));
}

/// The likeliest tokens that a mode keeps, with their probabilities divided by the mass
/// they have together.
pub open spec fn shares_of<T: Float>(probs: Seq<T>, n: nat) -> Seq<T> {
    let all = ranked(probs, probs.len());
    Seq::new(n, |k: int| fdiv(all[k].1, fsum(Seq::new(n, |q: int| all[q].1))))
}

/// Where a draw among the first `n` of a ranking falls.
proof fn lemma_pool_draw<T: Float>(probs: Seq<T>, n: nat, u: T)
    requires
        0 < n <= probs.len(),
        flt(fzero::<T>(), fsum(Seq::new(n, |q: int| ranked(probs, probs.len())[q].1))),
    ensures
        ({
            let all = ranked(probs, probs.len());
            let list = renormalised(all.take(n as int));
            let i = picked(masses(list), u, 0, fzero::<T>()) as int;
            &&& falls_on(shares_of(probs, n), u, i)
            &&& crate::inference::picked_pair(list, u) == all[i].0
        }),
{
    let all = ranked(probs, probs.len());
    lemma_ranked_len(probs, probs.len());
    let kept = all.take(n as int);
    let list = renormalised(kept);
    assert(masses(kept) =~= Seq::new(n, |q: int| all[q].1));
    assert(masses(list) =~= shares_of(probs, n));
    assert(masses(list).take(0) =~= Seq::<T>::empty());
    lemma_walk(masses(list), u, 0);
}

/// How many tokens the draw from the `k` likeliest is made from: `k` of them, at least one
/// and no more than there are.
pub open spec fn held_to(k: usize, n: nat) -> nat {
    if k == 0 {
        1
    } else if k < n {
        k as nat
    } else {
        n
    }
}

/// Drawing from the `k` likeliest gives the token at place `i` of the ranking exactly for
/// the draws that fall on its share of the mass of those `k`.
pub proof fn law_top_k_draws_by_share<T: Float>(
    logits: Seq<T>,
    k: usize,
    temperature: T,
    u: T,
    i: int,
)
    requires
        0 < logits.len() <= usize::MAX,
        ({
            let probs = tempered_softmax(logits, temperature);
            let n = held_to(k, logits.len());
            &&& falls_on(shares_of(probs, n), u, i)
            &&& flt(fzero::<T>(), fsum(Seq::new(n, |q: int| ranked(probs, probs.len())[q].1)))
        }),
    ensures
        choice_of(logits, SamplingMode::TopK { k, temperature }, u) == ranked(
            tempered_softmax(logits, temperature),
            logits.len(),
        )[i].0,
{
    let probs = tempered_softmax(logits, temperature);
    let n = held_to(k, logits.len());
    lemma_pool_draw(probs, n, u);
    let list = renormalised(ranked(probs, probs.len()).take(n as int));
    let j = picked(masses(list), u, 0, fzero::<T>()) as int;
    law_draw_falls_once(shares_of(probs, n), u, i, j);
}

/// The first `n` of a ranking reach mass `p`, and no fewer do; or all together do not.
pub open spec fn nucleus<T: Float>(all: Seq<(usize, T)>, p: T, n: nat) -> bool {
    &&& 0 < n <= all.len()
    &&& forall|q: nat|
        0 < q < n ==> !flt(p, #[trigger] first_mass(all, q)) && !feq(p, first_mass(all, q))
    &&& n < all.len() ==> flt(p, first_mass(all, n)) || feq(p, first_mass(all, n))
}

/// The mass of the first `n` of a ranking.
pub open spec fn first_mass<T: Float>(all: Seq<(usize, T)>, n: nat) -> T {
    fsum(Seq::new(n, |k: int| all[k].1))
}

/// The mass of the first of a ranking, added up from the left.
proof fn lemma_first_mass<T: Float>(all: Seq<(usize, T)>, n: nat)
    ensures
        mass_onto(all, fzero::<T>(), n) == first_mass(all, n),
    decreases n,
{
    let s = Seq::new(n, |k: int| all[k].1);
    if n > 0 {
        lemma_first_mass(all, (n - 1) as nat);
        assert(s.drop_last() =~= Seq::new((n - 1) as nat, |k: int| all[k].1));
    }
}

/// Drawing from the likeliest that reach mass `p` gives the token at place `i` of the
/// ranking exactly for the draws that fall on its share of the mass of those, where `p`
/// lies between a thousandth and one.
pub proof fn law_top_p_draws_by_share<T: Float>(
    logits: Seq<T>,
    p: T,
    temperature: T,
    u: T,
    n: nat,
    i: int,
)
    requires
        0 < logits.len() <= usize::MAX,
        !flt(p, fbits::<T>(0x3A83_126F)),
        !flt(fone::<T>(), p),
        ({
            let probs = tempered_softmax(logits, temperature);
            let all = ranked(probs, probs.len());
            &&& nucleus(all, p, n)
            &&& falls_on(shares_of(probs, n), u, i)
            &&& flt(fzero::<T>(), fsum(Seq::new(n, |q: int| all[q].1)))
        }),
    ensures
        choice_of(logits, SamplingMode::TopP { p, temperature }, u) == ranked(
            tempered_softmax(logits, temperature),
            logits.len(),
        )[i].0,
{
    let probs = tempered_softmax(logits, temperature);
    let all = ranked(probs, probs.len());
    lemma_ranked_len(probs, probs.len());
    let c = mass_cutoff(all, p, 0, fzero::<T>());
    crate::inference::law_nucleus_is_smallest(all, p);
    assert(c == n) by {
        if c < n {
            lemma_first_mass(all, c);
            assert(reaches(p, mass_onto(all, fzero::<T>(), c)));
            assert(!flt(p, first_mass(all, c)));
        }
        if n < c {
            lemma_first_mass(all, n);
            assert(reaches(p, mass_onto(all, fzero::<T>(), n)));
        }
    }
    lemma_pool_draw(probs, n, u);
    let list = renormalised(all.take(n as int));
    let j = picked(masses(list), u, 0, fzero::<T>()) as int;
    law_draw_falls_once(shares_of(probs, n), u, i, j);
}

/// Masses below a thousandth are one, and so are those above one.
pub proof fn law_nucleus_mass_is_bounded<T: Float>(logits: Seq<T>, p: T, temperature: T, u: T)
    ensures
        flt(p, fbits::<T>(0x3A83_126F)) && !flt(fbits::<T>(0x3A83_126F), fbits::<T>(0x3A83_126F))
            && !flt(fone::<T>(), fbits::<T>(0x3A83_126F)) ==> choice_of(
            logits,
            SamplingMode::TopP { p, temperature },
            u,
        ) == choice_of(
            logits,
            SamplingMode::TopP { p: fbits::<T>(0x3A83_126F), temperature },
            u,
        ),
        !flt(p, fbits::<T>(0x3A83_126F)) && flt(fone::<T>(), p) && !flt(
            fone::<T>(),
            fbits::<T>(0x3A83_126F),
        ) && !flt(fone::<T>(), fone::<T>()) ==> choice_of(
            logits,
            SamplingMode::TopP { p, temperature },
            u,
        ) == choice_of(logits, SamplingMode::TopP { p: fone::<T>(), temperature }, u),
{
}

/// Of equally likely tokens the earlier is ranked first.
pub proof fn law_ranking_keeps_ties_in_order<T: Float>(s: Seq<T>, n: nat, i: int, j: int)
    requires
        comparable(s),
        s.len() <= usize::MAX,
        n <= s.len(),
        0 <= i < j < n,
        !flt(ranked(s, n)[j].1, ranked(s, n)[i].1),
    ensures
        ranked(s, n)[i].0 < ranked(s, n)[j].0,
    decreases n,
{
    let m = (n - 1) as nat;
    let before = ranked(s, m);
    let x = s[n - 1];
    lemma_ranked_len(s, m);
    lemma_ranked_len(s, n);
    crate::inference::lemma_place_bound(before, x, 0);
    let p = rank_place(before, x, 0) as int;
    let all = ranked(s, n);
    assert(all == before.insert(p, (m as usize, x)));
    crate::inference::law_ranking_descends(s, n, i, j);
    if j < p {
        law_ranking_keeps_ties_in_order(s, m, i, j);
    } else if j == p {
        lemma_ranked_item(s, m, i);
    } else if i < p {
        law_ranking_keeps_ties_in_order(s, m, i, j - 1);
    } else if i == p {
        // What follows the new item is less likely than it.
        lemma_ranked_item(s, m, p);
        lemma_ranked_item(s, m, j - 1);
        let a = before[p].0 as int;
        let b = before[j - 1].0 as int;
        assert(flt(s[a], s[m as int]));
        if j - 1 > p {
            crate::inference::law_ranking_descends(s, m, p, j - 1);
            assert(!flt(s[a], s[b]));
        }
        assert(flt(s[a], s[b]) || flt(s[b], s[m as int]));
    } else {
        law_ranking_keeps_ties_in_order(s, m, i - 1, j - 1);
    }
}

/// The likeliest token is one that no other exceeds, and the last of several such.
pub proof fn law_greedy_takes_the_largest<T: Float>(logits: Seq<T>, u: T, j: int)
    requires
        comparable(logits),
        0 <= j < logits.len(),
    ensures
        ({
            let c = choice_of(logits, SamplingMode::<T>::Greedy, u) as int;
            &&& 0 <= c < logits.len()
            &&& !flt(logits[c], logits[j])
            &&& j > c ==> flt(logits[j], logits[c])
        }),
    decreases logits.len(),
{
    let n = logits.len() - 1;
    if n > 0 {
        let p = logits.drop_last();
        let b = argmax_of(p) as int;
        assert(comparable(p)) by {
            assert forall|i: int, k: int|
                0 <= i < p.len() && 0 <= k < p.len() && #[trigger] flt(p[i], p[k]) implies !flt(
                p[k],
                p[i],
            ) by {
                assert(flt(logits[i], logits[k]));
            }
            assert forall|i: int, k: int, l: int|
                #![trigger flt(p[i], p[k]), p[l]]
                0 <= i < p.len() && 0 <= k < p.len() && 0 <= l < p.len() && flt(p[i], p[k]) implies flt(
                p[i],
                p[l],
            ) || flt(p[l], p[k]) by {
                let z = logits[l];
                assert(flt(logits[i], logits[k]));
            }
        }
        law_greedy_takes_the_largest(p, u, if j < n { j } else { 0 });
        assert(0 <= b < n);
        let (x, y) = (logits[b], logits[n]);
        if flt(y, x) {
            // The best before stays.
            if j == n {
                assert(!flt(x, y));
            }
        } else if j < n {
            // The last one takes over.
            let z = logits[j];
            assert(p[j] == z && p[b] == x);
            if flt(y, z) {
                assert(flt(y, x) || flt(x, z));
            }
        }
    }
}

/// A drawn number is the top 24 bits of the state, as a share of 2 to the power of 24.
pub proof fn law_drawn_number_is_top_bits<T: Float>(state: u64)
    requires
        shares_out::<T>(),
        fbits::<T>(0x4B80_0000) == fcount::<T>(0x100_0000),
    ensures
        fmul(fcount::<T>(0x100_0000), unit_of::<T>(state)) == fcount::<T>(
            (state / 0x100_0000_0000) as usize,
        ),
        state / 0x100_0000_0000 < 0x100_0000,
{
    assert(state >> 40 == state / 0x100_0000_0000u64) by (bit_vector);
    exact_share(fcount::<T>((state >> 40) as usize), 0x100_0000);
}

/// The next token depends on the last ids alone: what comes before the longest context
/// does not matter.
pub proof fn law_next_token_forgets_old_ids<T: Float>(
    m: ModelOf<Array<T>>,
    c: ModelConfig,
    past: Seq<usize>,
    ids: Seq<usize>,
)
    requires
        ids.len() >= c.max_seq_len,
    ensures
        next_logits(m, c, past + ids) == next_logits(m, c, ids),
{
    let n = c.max_seq_len as int;
    assert((past + ids).skip(past.len() + ids.len() - n) =~= ids.skip(ids.len() - n));
    assert(ids.skip(0) =~= ids);
    assert(context_of(past + ids, n as nat) =~= context_of(ids, n as nat));
}

/// The logits of the next token are those of the last place of the ids, as long as these
/// fit the longest context.
pub proof fn law_next_token_follows_last<T: Float>(
    m: ModelOf<Array<T>>,
    c: ModelConfig,
    ids: Seq<usize>,
)
    requires
        0 < ids.len() <= c.max_seq_len,
    ensures
        next_logits(m, c, ids) == logits_of(m, ids, c.head_dim).row((ids.len() - 1) as nat),
{
}

/// Generated ids start with the ids before them.
#[verifier::spinoff_prover]
#[verifier::rlimit(40)]
proof fn lemma_generated_keeps<T: Float>(
    m: ModelOf<Array<T>>,
    c: ModelConfig,
    ids: Seq<usize>,
    mode: SamplingMode<T>,
    state: u64,
    n: nat,
)
    ensures
        generated(m, c, ids, mode, state, n).0.len() == ids.len() + n,
        generated(m, c, ids, mode, state, n).0.take(ids.len() as int) == ids,
    decreases n,
{
    let g = generated(m, c, ids, mode, state, n).0;
    if n == 0 {
        assert(g.take(ids.len() as int) =~= ids);
    } else {
        lemma_generated_keeps(m, c, ids, mode, state, (n - 1) as nat);
        let p = generated(m, c, ids, mode, state, (n - 1) as nat).0;
        assert(g.drop_last() =~= p);
        assert(g.take(ids.len() as int) =~= p.take(ids.len() as int));
    }
}

/// Generating goes on from what was generated.
#[verifier::spinoff_prover]
#[verifier::rlimit(40)]
proof fn lemma_generated_on<T: Float>(
    m: ModelOf<Array<T>>,
    c: ModelConfig,
    ids: Seq<usize>,
    mode: SamplingMode<T>,
    state: u64,
    a: nat,
    b: nat,
)
    ensures
        ({
            let g = generated(m, c, ids, mode, state, a);
            generated(m, c, ids, mode, state, a + b) == generated(m, c, g.0, mode, g.1, b)
        }),
    decreases b,
{
    if b > 0 {
        lemma_generated_on(m, c, ids, mode, state, a, (b - 1) as nat);
        assert((a + b) as nat - 1 == a + (b - 1) as nat);
    }
}

/// Generating goes on from what was generated: `a` tokens and then `b` more are `a + b`
/// tokens, and what was there stays.
#[verifier::spinoff_prover]
#[verifier::rlimit(40)]
pub proof fn law_generation_goes_on<T: Float>(
    m: ModelOf<Array<T>>,
    c: ModelConfig,
    ids: Seq<usize>,
    mode: SamplingMode<T>,
    state: u64,
    a: nat,
    b: nat,
)
    ensures
        ({
            let g = generated(m, c, ids, mode, state, a);
            let h = generated(m, c, ids, mode, state, a + b);
            &&& h == generated(m, c, g.0, mode, g.1, b)
            &&& h.0.len() == ids.len() + a + b
            &&& h.0.take(g.0.len() as int) == g.0
            &&& g.0.len() == ids.len() + a
            &&& g.0.take(ids.len() as int) == ids
        }),
{
    let g = generated(m, c, ids, mode, state, a);
    lemma_generated_on(m, c, ids, mode, state, a, b);
    lemma_generated_keeps(m, c, ids, mode, state, a);
    lemma_generated_keeps(m, c, g.0, mode, g.1, b);
}

/// Every pick but a greedy one draws one number: some picks and then others leave the
/// generator as all of them do, and a greedy pick leaves it alone.
pub proof fn law_picks_draw_one_number_each<T: Float>(
    mode: SamplingMode<T>,
    n: nat,
    s: u64,
    a: nat,
    b: nat,
)
    requires
        n > 0,
    ensures
        states_after(mode, n, s, a + b) == states_after(mode, n, states_after(mode, n, s, a), b),
        states_after(mode, n, s, 1) == state_after(mode, n, s),
        mode is Greedy ==> state_after(mode, n, s) == s,
        !(mode is Greedy) ==> state_after(mode, n, s) == lcg_next(s),
{
    lemma_skip_on(s, a, b);
    assert(lcg_skip(s, 0) == s);
    assert(lcg_skip(s, 1) == lcg_next(s));
}

/// Each generated token is what the mode picks from the logits of the ids before it, with
/// a fresh draw.
pub proof fn law_generated_token_is_picked<T: Float>(
    m: ModelOf<Array<T>>,
    c: ModelConfig,
    ids: Seq<usize>,
    mode: SamplingMode<T>,
    state: u64,
)
    ensures
        ({
            let g = generated(m, c, ids, mode, state, 1);
            let t = state_after(mode, c.vocab_size as nat, state);
            &&& g.1 == t
            &&& g.0.last() == choice_of(next_logits(m, c, ids), mode, unit_of::<T>(t)) as usize
        }),
{
    reveal_with_fuel(generated, 2);
}

} // verus!
