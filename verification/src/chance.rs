//! What the generator's draws decide: the states that follow each other, shuffles, batches
//! and initial weights.
use crate::data::{lcg_next, lcg_start, shuffled, swapped};
use crate::exact::{divisor, exact_div, ring_back};
use crate::float::{fadd, fbits, fcount, fdiv, fmul, fone, fsqrt, Float};
use crate::identities::{ring, ring_cross, ring_mul, ring_product};
use crate::model::{
    block_end, blocks_end, drawn_end, head_end, heads_end, init_block, init_head, init_of, lcg_skip,
    lemma_skip_on, root_scale, signed_unit, ModelConfig,
};
use crate::tensor::{lemma_volume2, volume};
use crate::train::{drawn_indices, place_drawn, worker_count};
use vstd::arithmetic::div_mod::{
    lemma_fundamental_div_mod, lemma_mod_multiples_vanish, lemma_small_mod, lemma_sub_mod_noop,
};
use vstd::prelude::*;

verus! {

/// Two states that lie some way apart are followed by states that lie that way times the
/// multiplier apart, round the range of states; and zero is followed by the increment.
pub proof fn law_generator_is_linear(a: u64, b: u64)
    ensures
        (lcg_next(a) - lcg_next(b)) % 0x1_0000_0000_0000_0000 == ((a - b) * 6364136223846793005)
            % 0x1_0000_0000_0000_0000,
        lcg_next(0) == 1442695040888963407,
{
    let m: int = 0x1_0000_0000_0000_0000;
    let (k, c): (int, int) = (6364136223846793005, 1442695040888963407);
    let (x, y) = (a * k + c, b * k + c);
    lemma_sub_mod_noop(x, y, m);
    assert(x - y == (a - b) * k) by (nonlinear_arith)
        requires
            x == a * k + c,
            y == b * k + c,
    ;
}

/// Every state follows one state only: the step can be undone.
pub proof fn law_generator_can_go_back(a: u64)
    ensures
        ((lcg_next(a) - 1442695040888963407) * 13877824140714322085) % 0x1_0000_0000_0000_0000
            == a,
{
    let m: int = 0x1_0000_0000_0000_0000;
    let (k, c, v): (int, int, int) = (6364136223846793005, 1442695040888963407, 13877824140714322085);
    let x = a * k + c;
    lemma_fundamental_div_mod(x, m);
    let q = x / m;
    let r = x % m;
    let w: int = 4787856489426250814;
    assert(k * v == 1 + w * m);
    assert((r - c) * v == a + m * (a * w - q * v)) by (nonlinear_arith)
        requires
            x == a * k + c,
            x == m * q + r,
            k * v == 1 + w * m,
    ;
    let t = a * w - q * v;
    lemma_mod_multiples_vanish(t, a as int, m);
    assert(m * t + a == a + m * t);
    lemma_small_mod(a as nat, m as nat);
}

/// Draws follow on from each other: none leaves the state, one takes the next, and some
/// draws and then others take as many as both.
pub proof fn law_draws_follow_on(s: u64, a: nat, b: nat)
    ensures
        lcg_skip(s, 0) == s,
        lcg_skip(s, 1) == lcg_next(s),
        lcg_skip(lcg_skip(s, a), b) == lcg_skip(s, a + b),
{
    lemma_skip_on(s, a, b);
    assert(lcg_skip(s, 0) == s);
}

/// Seeds one apart start one apart, round the range; so no two seeds start alike.
pub proof fn law_seeds_start_apart(a: u64, b: u64)
    ensures
        lcg_start(a) == lcg_start(b) ==> a == b,
        a < u64::MAX ==> lcg_start(a) == a + 1,
        lcg_start(u64::MAX) == 0,
{
}

/// An initial weight's number before it is scaled: one more than it, times 2 to the power
/// of 22, is the number in the top 23 bits of its state.
pub proof fn law_initial_number_is_top_bits<T: Float>(s: u64)
    requires
        ring::<T>(),
        divisor(fbits::<T>(0x4A80_0000)),
    ensures
        fmul(fbits::<T>(0x4A80_0000), fadd(signed_unit::<T>(s), fone::<T>())) == fcount::<T>(
            (s as int / 0x200_0000_0000) as usize,
        ),
{
    let n = (s >> 41) as usize;
    assert(s >> 41 == s / 0x200_0000_0000) by (bit_vector);
    let d = fbits::<T>(0x4A80_0000);
    exact_div(fcount::<T>(n), d);
    ring_back(fdiv(fcount::<T>(n), d), fone::<T>());
}

/// The scale of initial weights squared, times their number of inputs, is one.
pub proof fn law_initial_scale_is_root_of_inputs<T: Float>(n: usize)
    requires
        ring::<T>(),
        fmul(fsqrt(fcount::<T>(n)), fsqrt(fcount::<T>(n))) == fcount::<T>(n),
        divisor(fsqrt(fcount::<T>(n))),
    ensures
        fmul(fmul(root_scale::<T>(n), root_scale::<T>(n)), fcount::<T>(n)) == fone::<T>(),
{
    let r = fsqrt(fcount::<T>(n));
    let s = root_scale::<T>(n);
    exact_div(fone::<T>(), r);
    ring_cross(s, s, r, r);
    ring_mul(s, r);
    ring_product(fone::<T>(), fone::<T>(), fone::<T>());
}

/// The draws of a matrix of given sizes.
proof fn lemma_drawn(s: u64, a: nat, m: usize, n: usize)
    ensures
        drawn_end(lcg_skip(s, a), m, n) == lcg_skip(s, a + (m * n) as nat),
        volume(seq![m, n]) == m * n,
        0 <= m * n,
{
    lemma_volume2(seq![m, n]);
    assert(0 <= m * n) by (nonlinear_arith);
    lemma_skip_on(s, a, (m * n) as nat);
}

/// The four matrices of a head take their draws one after the other: queries, keys and
/// values scaled for the width of the model, the output for the width of the head.
pub proof fn law_head_draws_in_turn<T: Float>(s: u64, c: ModelConfig, k: int)
    requires
        0 <= k < c.hidden_dim * c.head_dim,
    ensures
        ({
            let n = (c.hidden_dim * c.head_dim) as nat;
            let h = init_head::<T>(s, c);
            let at = |i: nat| signed_unit::<T>(lcg_skip(s, i));
            let (wide, narrow) = (root_scale::<T>(c.hidden_dim), root_scale::<T>(c.head_dim));
            &&& h.w_q.data[k] == fmul(at((k + 1) as nat), wide)
            &&& h.w_k.data[k] == fmul(at((n + k + 1) as nat), wide)
            &&& h.w_v.data[k] == fmul(at((2 * n + k + 1) as nat), wide)
            &&& h.w_o.data[k] == fmul(at((3 * n + k + 1) as nat), narrow)
            &&& head_end(s, c) == lcg_skip(s, 4 * n)
        }),
{
    let (h, d) = (c.hidden_dim, c.head_dim);
    let n = (h * d) as nat;
    assert(h * d == d * h) by (nonlinear_arith);
    assert(lcg_skip(s, 0) == s);
    lemma_drawn(s, 0, h, d);
    lemma_drawn(s, n, h, d);
    lemma_drawn(s, 2 * n, h, d);
    lemma_drawn(s, 3 * n, d, h);
    let j = (k + 1) as nat;
    lemma_skip_on(s, n, j);
    lemma_skip_on(s, 2 * n, j);
    lemma_skip_on(s, 3 * n, j);
}

/// The heads of a block take their draws one after the other.
proof fn lemma_heads_draw(s: u64, c: ModelConfig, i: nat)
    ensures
        0 <= c.hidden_dim * c.head_dim,
        heads_end(s, c, i) == lcg_skip(s, i * (4 * (c.hidden_dim * c.head_dim) as nat)),
    decreases i,
{
    let n = (c.hidden_dim * c.head_dim) as nat;
    assert(0 <= c.hidden_dim * c.head_dim) by (nonlinear_arith);
    if i == 0 {
        assert(0 * (4 * n) == 0) by (nonlinear_arith);
    } else {
        let p = (i - 1) as nat;
        lemma_heads_draw(s, c, p);
        let t = heads_end(s, c, p);
        lemma_head_end(t, c);
        lemma_skip_on(s, p * (4 * n), 4 * n);
        assert(p * (4 * n) + 4 * n == i * (4 * n)) by (nonlinear_arith)
            requires
                i == p + 1,
        ;
    }
}

/// The state after a head.
proof fn lemma_head_end(s: u64, c: ModelConfig)
    ensures
        0 <= c.hidden_dim * c.head_dim,
        head_end(s, c) == lcg_skip(s, 4 * (c.hidden_dim * c.head_dim) as nat),
{
    let (h, d) = (c.hidden_dim, c.head_dim);
    assert(0 <= h * d) by (nonlinear_arith);
    let n = (h * d) as nat;
    assert(h * d == d * h) by (nonlinear_arith);
    assert(lcg_skip(s, 0) == s);
    lemma_drawn(s, 0, h, d);
    lemma_drawn(s, n, h, d);
    lemma_drawn(s, 2 * n, h, d);
    lemma_drawn(s, 3 * n, d, h);
}

/// How many draws the weights of a block take.
pub open spec fn block_draws(c: ModelConfig) -> nat {
    (c.n_heads * (4 * (c.hidden_dim * c.head_dim)) + 3 * (c.hidden_dim * c.ffn_dim)) as nat
}

/// The weights of a block take their draws one after the other: the heads, and then the
/// three projections of the feed-forward layer, scaled for their numbers of inputs.
pub proof fn law_block_draws_in_turn<T: Float>(s: u64, c: ModelConfig, i: nat, k: int)
    requires
        i < c.n_heads,
        0 <= k < c.hidden_dim * c.ffn_dim,
    ensures
        ({
            let n = (4 * (c.hidden_dim * c.head_dim)) as nat;
            let m = (c.hidden_dim * c.ffn_dim) as nat;
            let b = init_block::<T>(s, c);
            let at = |i: nat| signed_unit::<T>(lcg_skip(s, i));
            let (wide, inner) = (root_scale::<T>(c.hidden_dim), root_scale::<T>(c.ffn_dim));
            &&& b.heads.len() == c.n_heads
            &&& b.heads[i as int] == init_head::<T>(lcg_skip(s, i * n), c)
            &&& b.gate.data[k] == fmul(at((c.n_heads * n + k + 1) as nat), wide)
            &&& b.up.data[k] == fmul(at((c.n_heads * n + m + k + 1) as nat), wide)
            &&& b.down.data[k] == fmul(at((c.n_heads * n + 2 * m + k + 1) as nat), inner)
            &&& block_end(s, c) == lcg_skip(s, block_draws(c))
        }),
{
    let (h, f) = (c.hidden_dim, c.ffn_dim);
    let m = (h * f) as nat;
    lemma_heads_draw(s, c, i);
    lemma_block_end(s, c);
    lemma_heads_draw(s, c, c.n_heads as nat);
    let n = (4 * (c.hidden_dim * c.head_dim)) as nat;
    let a = (c.n_heads * n) as nat;
    assert(c.n_heads * n >= 0) by (nonlinear_arith);
    assert(h * f == f * h) by (nonlinear_arith);
    lemma_drawn(s, a, h, f);
    lemma_drawn(s, a + m, h, f);
    lemma_drawn(s, a + 2 * m, f, h);
    let j = (k + 1) as nat;
    lemma_skip_on(s, a, j);
    lemma_skip_on(s, a + m, j);
    lemma_skip_on(s, a + 2 * m, j);
}

/// The state after a block.
proof fn lemma_block_end(s: u64, c: ModelConfig)
    ensures
        block_end(s, c) == lcg_skip(s, block_draws(c)),
{
    let (h, f) = (c.hidden_dim, c.ffn_dim);
    assert(0 <= h * f) by (nonlinear_arith);
    assert(h * f == f * h) by (nonlinear_arith);
    let m = (h * f) as nat;
    lemma_heads_draw(s, c, c.n_heads as nat);
    let n = (4 * (c.hidden_dim * c.head_dim)) as nat;
    assert(c.n_heads * n >= 0) by (nonlinear_arith);
    let a = (c.n_heads * n) as nat;
    lemma_drawn(s, a, h, f);
    lemma_drawn(s, a + m, h, f);
    lemma_drawn(s, a + 2 * m, f, h);
}

/// A model's weights take their draws one after the other: the embedding, scaled for the
/// width of the model, and then block after block.
pub proof fn law_model_draws_in_turn<T: Float>(c: ModelConfig, seed: u64, j: nat, k: int)
    requires
        j < c.n_blocks,
        0 <= k < c.vocab_size * c.hidden_dim,
    ensures
        ({
            let s = lcg_start(seed);
            let n = (c.vocab_size * c.hidden_dim) as nat;
            let m = init_of::<T>(c, seed);
            &&& m.embed.data[k] == fmul(
                signed_unit::<T>(lcg_skip(s, (k + 1) as nat)),
                root_scale::<T>(c.hidden_dim),
            )
            &&& m.blocks.len() == c.n_blocks
            &&& m.blocks[j as int] == init_block::<T>(lcg_skip(s, n + j * block_draws(c)), c)
        }),
{
    let s = lcg_start(seed);
    let n = (c.vocab_size * c.hidden_dim) as nat;
    assert(lcg_skip(s, 0) == s);
    lemma_drawn(s, 0, c.vocab_size, c.hidden_dim);
    lemma_blocks_draw(lcg_skip(s, n), c, j);
    assert(j * block_draws(c) >= 0) by (nonlinear_arith);
    lemma_skip_on(s, n, j * block_draws(c));
}

/// The blocks of a model take their draws one after the other.
proof fn lemma_blocks_draw(s: u64, c: ModelConfig, j: nat)
    ensures
        blocks_end(s, c, j) == lcg_skip(s, j * block_draws(c)),
    decreases j,
{
    let n = block_draws(c);
    if j == 0 {
        assert(0 * n == 0) by (nonlinear_arith);
    } else {
        let p = (j - 1) as nat;
        lemma_blocks_draw(s, c, p);
        lemma_block_end(blocks_end(s, c, p), c);
        assert(p * n >= 0) by (nonlinear_arith);
        lemma_skip_on(s, p * n, n);
        assert(p * n + n == j * n) by (nonlinear_arith)
            requires
                j == p + 1,
        ;
    }
}

/// A shuffle draws the item of its last place from all of them, by the remainder of the
/// next state, shuffles the others likewise, and takes one draw a place.
pub proof fn law_shuffle_draws_every_place<T>(s: Seq<T>, state: u64, i: nat)
    requires
        0 < i < s.len(),
        i < usize::MAX,
    ensures
        ({
            let p = lcg_next(state) as int % (i as int + 1);
            &&& shuffled(s, state, i).0[i as int] == s[p]
            &&& shuffled(s, state, i) == shuffled(
                s.update(p, s[i as int]).update(i as int, s[p]),
                lcg_next(state),
                (i - 1) as nat,
            )
            &&& shuffled(s, state, i).1 == lcg_skip(state, i)
        }),
{
    let next = lcg_next(state);
    let p = (next % ((i + 1) as u64)) as int;
    let t = swapped(s, i as int, p);
    lemma_above_stays(t, next, (i - 1) as nat, i as int);
    lemma_shuffle_draws(s, state, i);
    assert(t =~= s.update(p, s[i as int]).update(i as int, s[p]));
}

/// A shuffle leaves the places above its first alone.
proof fn lemma_above_stays<T>(s: Seq<T>, state: u64, i: nat, k: int)
    requires
        i < k < s.len(),
        i < usize::MAX,
    ensures
        shuffled(s, state, i).0.len() == s.len(),
        shuffled(s, state, i).0[k] == s[k],
    decreases i,
{
    if i > 0 {
        let next = lcg_next(state);
        let t = swapped(s, i as int, (next % ((i + 1) as u64)) as int);
        lemma_above_stays(t, next, (i - 1) as nat, k);
    }
}

/// The draws of a shuffle.
proof fn lemma_shuffle_draws<T>(s: Seq<T>, state: u64, i: nat)
    ensures
        shuffled(s, state, i).1 == lcg_skip(state, i),
    decreases i,
{
    if i > 0 {
        let next = lcg_next(state);
        let t = swapped(s, i as int, (next % ((i + 1) as u64)) as int);
        lemma_shuffle_draws(t, next, (i - 1) as nat);
        assert(lcg_skip(state, 0) == state);
        assert(lcg_skip(state, 1) == next);
        lemma_skip_on(state, 1, (i - 1) as nat);
    }
}

/// The windows of a batch are drawn one by one, each by the remainder of the next state:
/// two batches in a row draw what one of both sizes draws.
pub proof fn law_batches_draw_on(state: u64, n: usize, a: nat, b: nat)
    requires
        n > 0,
    ensures
        drawn_indices(state, n, a + b) == drawn_indices(state, n, a) + drawn_indices(
            lcg_skip(state, a),
            n,
            b,
        ),
        drawn_indices(state, n, 1) == seq![(lcg_next(state) as int % n as int) as usize],
        forall|k: nat|
            k < a ==> #[trigger] place_drawn(state, n, k) == drawn_indices(state, n, a)[k as int],
{
    let x = drawn_indices(state, n, a + b);
    let y = drawn_indices(state, n, a) + drawn_indices(lcg_skip(state, a), n, b);
    assert forall|k: int| 0 <= k < a + b implies #[trigger] x[k] == y[k] by {
        if k >= a {
            lemma_skip_on(state, a, (k - a + 1) as nat);
        }
    }
    assert(x =~= y);
    assert(lcg_skip(state, 0) == state);
    assert(lcg_skip(state, 1) == lcg_next(state));
    assert(drawn_indices(state, n, 1) =~= seq![(lcg_next(state) as int % n as int) as usize]);
    assert forall|k: nat| k < a implies #[trigger] place_drawn(state, n, k) == drawn_indices(
        state,
        n,
        a,
    )[k as int] by {
        assert(lcg_skip(state, k + 1) % (n as u64) < n);
    }
}

/// A batch has as many workers as are asked for, but at least one and no more than it has
/// windows.
pub proof fn law_workers_share_batch(batch: usize, workers: usize)
    ensures
        worker_count(batch, workers) <= batch,
        batch > 0 ==> worker_count(batch, workers) >= 1,
        1 <= workers <= batch ==> worker_count(batch, workers) == workers,
        workers >= batch ==> worker_count(batch, workers) == batch,
{
}

} // verus!
