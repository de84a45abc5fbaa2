//! What calls of the library give, for every value that they can return: how results relate
//! to their arguments and to each other.
use crate::agreement::grid;
use crate::autograd::{back, seeded, Graph};
use crate::bitlinear::{absmax_int8, absmean_ternary, dequantised_weights};
use crate::bpe::{byte_tokens, pair_count, Bpe};
use crate::chance::law_shuffle_draws_every_place;
use crate::cli::filter_prompt;
use crate::config::{split_at, split_point, val_windows_wanted, TrainConfig};
use crate::data::{lcg_next, lcg_start, make_windows, shuffle_in_place, unit_of, Lcg, Vocab};
use crate::descent::{all_clipped, law_clipping_brings_norm_to_limit, law_rate_rises_evenly};
use crate::drawing::{
    falls_on, law_generation_goes_on, law_greedy_takes_the_largest, law_temperature_draws_by_mass,
};
use crate::exact::{divisor, exact_share, exps_multiply, shares_out, strict};
use crate::export::Format;
use crate::fitting::law_regression_goes_downhill;
use crate::float::{
    deterministic, fabs, fadd, fbits, fcos, fcount, fexp, flt, fmul, fround, fsin, fsub, fsum,
    fzero, Float,
};
use crate::gpu::{bit_linear_plan, grid_1d, grid_2d, law_grid_covers, target_args, BitLinearPlan};
use crate::identities::{ring, squares_back};
use crate::inference::{
    argmax, choose_token, comparable, generate, generated, softmax_with_temperature, SamplingMode,
};
use crate::linear::{inner, law_product_item, law_transpose_item};
use crate::model::{descended_of, lcg_skip, root_scale, signed_unit, Model, ModelConfig};
use crate::ops::{embed_of, ids_below, rope_angle};
use crate::optim::{clip_grad_norm_tensors, cosine_lr, norm_of, scheduled, square_sum, OptimState};
use crate::quantising::{law_weight_is_rounded_quotient, law_weight_scale_is_mean_size};
use crate::regression::{empty_graph, loss_graph, loss_steps, regression_step};
use crate::runs::{law_lowest_loss_never_rises, law_run_counts_its_steps};
use crate::scoring::{
    column, law_average_shares_equally, law_evaluation_is_mean_loss, law_loss_is_mean_cost,
    law_window_loss_scores_targets, level, log_sum_exp, logs_split, looked_at, losses_of, row_costs,
};
use crate::slopes::law_recorded_values;
use crate::step::tied_embed_grad;
use crate::stream::{law_ids_are_embedded_alone, law_mask_hides_later_places};
use crate::tensor::{matmul_of, mul_of, sub_of, Array, Tensor};
use crate::train::{
    average_grads, eval_loss, eval_val_perplexity, line_due, window_loss, DemoLosses,
};
use crate::trainer::{chained, last_samples, run_sizes, started, train_bitnet_lm, Trainer};
use crate::turning::law_pairs_turn_forward;
use vstd::prelude::*;

verus! {

/// The loss that is returned for logits and targets is the mean over all rows of the
/// log-sum-exp of the row less the logit of its target.
pub proof fn law_called_loss<T: Float>(x: &Tensor<T>, targets: &[usize], r: T)
    requires
        deterministic::<T>(),
        ring::<T>(),
        exps_multiply::<T>(),
        shares_out::<T>(),
        logs_split(x@),
        x.shape@.len() == 2,
        x.shape@[0] > 0,
        targets@.len() == x.shape@[0],
        call_ensures(Tensor::<T>::loss, (x, targets), r),
    ensures
        fmul(fcount::<T>(x.shape@[0]), r) == fsum(row_costs(x@, targets@)),
{
    law_loss_is_mean_cost(x@, targets@);
}

/// The loss that is returned for a window is the mean over all its places of the
/// log-sum-exp of the logits less that of the target.
pub proof fn law_called_window_loss<T: Float>(
    m: &Model<T>,
    input: &[usize],
    target: &[usize],
    r: T,
)
    requires
        deterministic::<T>(),
        ring::<T>(),
        exps_multiply::<T>(),
        shares_out::<T>(),
        ({
            let x = crate::model::logits_of(m@, input@, m.config.head_dim);
            logs_split(x) && x.dims.len() == 2 && x.dims[0] == input@.len()
        }),
        input@.len() > 0,
        target@.len() == input@.len(),
        call_ensures(eval_loss::<T>, (m, input, target), r),
    ensures
        ({
            let x = crate::model::logits_of(m@, input@, m.config.head_dim);
            fmul(fcount::<T>(input@.len() as usize), r) == fsum(
                Seq::new(
                    input@.len(),
                    |i: int| fsub(log_sum_exp(x.row(i as nat)), x.row(i as nat)[target@[i] as int]),
                ),
            )
        }),
{
    law_window_loss_scores_targets(*m, input@, target@);
}

/// The averages that are returned for some results: each, times their number, is the sum of
/// that item, or of the losses, over all of them.
pub proof fn law_called_average<T: Float>(
    rs: &Vec<(Vec<Tensor<T>>, T)>,
    r: (Vec<Tensor<T>>, T),
    k: int,
    i: int,
)
    requires
        deterministic::<T>(),
        ring::<T>(),
        shares_out::<T>(),
        level(rs@),
        0 < rs@.len() <= usize::MAX,
        0 <= k < rs@[0].0@.len(),
        0 <= i < rs@[0].0@[k].data@.len(),
        call_ensures(average_grads::<T>, (rs,), r),
    ensures
        fmul(fcount::<T>(rs@.len() as usize), r.0@[k].data@[i]) == fsum(column(rs@, k, i)),
        fmul(fcount::<T>(rs@.len() as usize), r.1) == fsum(losses_of(rs@)),
{
    law_average_shares_equally(rs@, (r.0@, r.1), k, i);
}

/// The evaluation that is returned is the mean of the losses of evenly spaced windows and
/// its exponential.
pub proof fn law_called_evaluation<T: Float>(
    m: &Model<T>,
    ws: &Vec<(Vec<usize>, Vec<usize>)>,
    n: usize,
    r: (T, T),
)
    requires
        deterministic::<T>(),
        shares_out::<T>(),
        0 < ws@.len() <= usize::MAX,
        n > 0,
        call_ensures(eval_val_perplexity::<T>, (m, ws, n), r),
    ensures
        r.1 == fexp(r.0),
        ({
            let c = looked_at(ws@.len(), n);
            let apart = (ws@.len() / c) as int;
            fmul(fcount::<T>(c as usize), r.0) == fsum(
                Seq::new(c, |j: int| window_loss(*m, ws@[j * apart].0@, ws@[j * apart].1@)),
            )
        }),
{
    law_evaluation_is_mean_loss(*m, ws@, n);
}

/// The token that is chosen at a temperature is the one on whose share of the mass the
/// number falls that is drawn; every choice but the greedy one draws the next number.
pub proof fn law_called_choice<T: Float>(
    logits: &[T],
    temperature: T,
    rng: &mut Lcg,
    r: usize,
)
    requires
        deterministic::<T>(),
        logits@.len() > 0,
        call_ensures(
            choose_token::<T>,
            (logits, SamplingMode::<T>::Temperature { temperature }, rng),
            r,
        ),
    ensures
        final(rng).state == lcg_next(old(rng).state),
        forall|probs: Vec<T>|
            call_ensures(softmax_with_temperature::<T>, (logits, temperature), probs) ==> falls_on(
                #[trigger] probs@,
                unit_of::<T>(lcg_next(old(rng).state)),
                r as int,
            ),
{
    law_temperature_draws_by_mass(
        logits@,
        temperature,
        unit_of::<T>(lcg_next(old(rng).state)),
        r as int,
    );
}

/// The greedy choice is the largest logit, the last of several, and draws nothing.
pub proof fn law_called_greedy_choice<T: Float>(logits: &[T], rng: &mut Lcg, r: usize, j: int)
    requires
        deterministic::<T>(),
        comparable(logits@),
        0 <= j < logits@.len(),
        call_ensures(choose_token::<T>, (logits, SamplingMode::<T>::Greedy, rng), r),
    ensures
        final(rng).state == old(rng).state,
        !flt(logits@[r as int], logits@[j]),
        j > r ==> flt(logits@[j], logits@[r as int]),
{
    law_greedy_takes_the_largest(logits@, unit_of::<T>(final(rng).state), j);
}

/// The place that is returned of the largest value: none is larger, and none after it is as
/// large.
pub proof fn law_called_argmax<T: Float>(values: &[T], r: usize, j: int)
    requires
        deterministic::<T>(),
        comparable(values@),
        0 <= j < values@.len(),
        call_ensures(argmax::<T>, (values,), r),
    ensures
        !flt(values@[r as int], values@[j]),
        j > r ==> flt(values@[j], values@[r as int]),
{
    law_greedy_takes_the_largest(values@, fzero::<T>(), j);
}

/// A product that is returned has, at every place, the sum of the products along a row and
/// a column.
pub proof fn law_called_product<T: Float>(
    a: &Tensor<T>,
    b: &Tensor<T>,
    r: Tensor<T>,
    m: usize,
    k: usize,
    n: usize,
    i: nat,
    j: nat,
)
    requires
        deterministic::<T>(),
        grid(a@, m, k),
        grid(b@, k, n),
        i < m,
        j < n,
        call_ensures(Tensor::<T>::matmul, (a, b), r),
    ensures
        r@.row(i)[j as int] == fsum(
            Seq::new(k as nat, |p: int| fmul(a@.row(i)[p], b@.row(p as nat)[j as int])),
        ),
{
    law_product_item(a@, b@, m, k, n, i, j);
}

/// A transpose that is returned has rows and columns exchanged.
pub proof fn law_called_transpose<T: Float>(
    a: &Tensor<T>,
    r: Tensor<T>,
    m: usize,
    n: usize,
    i: nat,
    j: nat,
)
    requires
        deterministic::<T>(),
        grid(a@, m, n),
        i < m,
        j < n,
        call_ensures(Tensor::<T>::transpose_2d, (a,), r),
    ensures
        r@.row(j)[i as int] == a@.row(i)[j as int],
{
    law_transpose_item(a@, m, n, i, j);
}

/// A rotation that is returned turns every pair of a row by its angle.
pub proof fn law_called_rotation<T: Float>(
    x: &Tensor<T>,
    r: Tensor<T>,
    m: usize,
    d: usize,
    pos: usize,
    i: int,
)
    requires
        deterministic::<T>(),
        grid(x@, m, d),
        pos < m,
        d % 2 == 0,
        0 <= i < d / 2,
        call_ensures(Tensor::<T>::rope, (x,), r),
    ensures
        ({
            let (a, b) = (x@.row(pos as nat)[2 * i], x@.row(pos as nat)[2 * i + 1]);
            let angle = rope_angle::<T>(pos, i as usize, d);
            &&& r@.row(pos as nat)[2 * i] == fsub(fmul(a, fcos(angle)), fmul(b, fsin(angle)))
            &&& r@.row(pos as nat)[2 * i + 1] == fadd(fmul(a, fsin(angle)), fmul(b, fcos(angle)))
        }),
{
    law_pairs_turn_forward(x@, m, d, pos, i);
}

/// A mask that is returned hides what is later and leaves the rest.
pub proof fn law_called_mask<T: Float>(x: &Tensor<T>, r: Tensor<T>, n: usize, i: nat, j: int)
    requires
        deterministic::<T>(),
        grid(x@, n, n),
        i < n,
        0 <= j < n,
        call_ensures(Tensor::<T>::causal_mask, (x,), r),
    ensures
        j <= i ==> r@.row(i)[j] == x@.row(i)[j],
        j > i ==> r@.row(i)[j] == fbits::<T>(0xFF80_0000),
{
    law_mask_hides_later_places(x@, n, i, j);
}

/// A lookup that is returned has the rows of the ids in their order.
pub proof fn law_called_lookup<T: Float>(
    w: &Tensor<T>,
    ids: &[usize],
    r: Tensor<T>,
    v: usize,
    h: usize,
    i: nat,
)
    requires
        deterministic::<T>(),
        grid(w@, v, h),
        ids_below(ids@, v),
        ids@.len() <= usize::MAX,
        i < ids@.len(),
        call_ensures(Tensor::<T>::embed, (w, ids), r),
    ensures
        r@.row(i) == w@.row(ids@[i as int] as nat),
{
    law_ids_are_embedded_alone(w@, v, h, ids@, i);
}

/// The gradient that a lookup is returned is its adjoint.
pub proof fn law_called_lookup_gradient<T: Float>(
    g: &Tensor<T>,
    w: &Tensor<T>,
    ids: &[usize],
    d: Array<T>,
    r: Tensor<T>,
    v: usize,
    h: usize,
)
    requires
        deterministic::<T>(),
        ring::<T>(),
        0 < ids@.len() <= usize::MAX,
        ids_below(ids@, v),
        grid(w@, v, h),
        grid(d, v, h),
        grid(g@, ids@.len() as usize, h),
        call_ensures(Tensor::<T>::embed_grad, (g, w, ids), r),
    ensures
        inner(r@, d) == inner(g@, embed_of(d, ids@)),
{
    crate::slopes::law_lookup_gradient(g@, w@, d, ids@, v, h);
}

/// The ternary weights and the scale that are returned: the scale times the number of
/// weights is the sum of their sizes, and a weight is its quotient, rounded and held.
pub proof fn law_called_ternary<T: Float>(w: &Tensor<T>, r: (Tensor<T>, T), k: int, q: T)
    requires
        deterministic::<T>(),
        shares_out::<T>(),
        0 <= k < w.data@.len() <= usize::MAX,
        call_ensures(absmean_ternary::<T>, (w,), r),
        divisor(fadd(r.1, fbits::<T>(0x3727_C5AC))),
        fmul(fadd(r.1, fbits::<T>(0x3727_C5AC)), q) == w.data@[k],
    ensures
        fmul(fcount::<T>(w.data@.len() as usize), r.1) == fsum(
            Seq::new(w.data@.len(), |i: int| fabs(w.data@[i])),
        ),
        ({
            let (low, high) = (fbits::<T>(0xBF80_0000), fbits::<T>(0x3F80_0000));
            &&& flt(fround(q), low) ==> r.0.data@[k] == low
            &&& !flt(fround(q), low) && flt(high, fround(q)) ==> r.0.data@[k] == high
            &&& !flt(fround(q), low) && !flt(high, fround(q)) ==> r.0.data@[k] == fround(q)
        }),
        forall|back: Tensor<T>|
            call_ensures(dequantised_weights::<T>, (w,), back) ==> (#[trigger] back.data@)[k]
                == fmul(r.0.data@[k], r.1),
{
    law_weight_scale_is_mean_size(w.data@);
    law_weight_is_rounded_quotient(w@, k, q);
    assert forall|back: Tensor<T>|
        call_ensures(dequantised_weights::<T>, (w,), back) implies (#[trigger] back.data@)[k]
        == fmul(r.0.data@[k], r.1) by {
        assert(back@.data == back.data@);
    }
}

/// The learning rate that is returned rises evenly over the warm-up, and is the floor from
/// the end on.
pub proof fn law_called_rate<T: Float>(
    step: usize,
    warmup: usize,
    total: usize,
    peak: T,
    floor: T,
    r: T,
)
    requires
        deterministic::<T>(),
        shares_out::<T>(),
        call_ensures(cosine_lr::<T>, (step, warmup, total, peak, floor), r),
    ensures
        step < warmup ==> fmul(fcount::<T>(warmup), r) == fmul(peak, fcount::<T>(step)),
        step >= warmup && step >= total ==> r == floor,
{
    if step < warmup {
        law_rate_rises_evenly(step, warmup, total, peak, floor);
    }
}

/// Clipping returns the norm before it, leaves gradients whose norm is not above the limit,
/// and brings the others to the limit together.
pub proof fn law_called_clipping<T: Float>(grads: &mut Vec<Tensor<T>>, limit: T, r: T)
    requires
        deterministic::<T>(),
        ring::<T>(),
        call_ensures(clip_grad_norm_tensors::<T>, (grads, limit), r),
        divisor(fadd(r, fbits::<T>(0x3586_37BD))),
        squares_back(
            square_sum(crate::autograd::arrays(old(grads)@), old(grads)@.len()),
        ),
    ensures
        ({
            let (a, b) = (
                crate::autograd::arrays(old(grads)@),
                crate::autograd::arrays(final(grads)@),
            );
            let raised = fadd(r, fbits::<T>(0x3586_37BD));
            &&& fmul(r, r) == square_sum(a, a.len())
            &&& !flt(limit, r) ==> b == a
            &&& flt(limit, r) ==> fmul(fmul(raised, raised), square_sum(b, a.len())) == fmul(
                fmul(limit, limit),
                square_sum(a, a.len()),
            )
        }),
{
    let (a, b) = (crate::autograd::arrays(old(grads)@), crate::autograd::arrays(final(grads)@));
    assert(r == norm_of(a));
    assert forall|k: int| 0 <= k < a.len() implies #[trigger] b[k] == all_clipped(a, limit)[k] by {
        assert(final(grads)@[k]@ == b[k]);
    }
    assert(b =~= all_clipped(a, limit));
    if flt(limit, r) {
        law_clipping_brings_norm_to_limit(a, limit);
    } else {
        assert(b =~= a);
    }
}

/// The windows that are returned lie one id apart, and every target is the id after its
/// input.
pub proof fn law_called_windows(
    ids: &[usize],
    n: usize,
    r: Vec<(Vec<usize>, Vec<usize>)>,
    i: int,
    j: int,
)
    requires
        ids@.len() > n,
        call_ensures(make_windows, (ids, n), r),
        0 <= i < r@.len(),
        0 <= j < n,
    ensures
        r@.len() + n == ids@.len(),
        r@[i].0@.len() == n,
        r@[i].1@.len() == n,
        r@[i].0@[j] == ids@[i + j],
        r@[i].1@[j] == ids@[i + j + 1],
{
}

/// A number that is drawn below a bound is the remainder of the next state.
pub proof fn law_called_range(rng: &mut Lcg, n: usize, r: usize)
    requires
        n > 0,
        call_ensures(Lcg::gen_range, (rng, n), r),
    ensures
        final(rng).state == lcg_next(old(rng).state),
        r < n,
        (lcg_next(old(rng).state) - r) % n as int == 0,
{
    let (a, b) = (lcg_next(old(rng).state) as int, n as int);
    vstd::arithmetic::div_mod::lemma_fundamental_div_mod(a, b);
    vstd::arithmetic::div_mod::lemma_mod_multiples_basic(a / b, b);
    assert((a / b) * b == b * (a / b)) by (nonlinear_arith);
}

/// No item of a row is larger than the scale that is returned for it.
pub proof fn law_called_scales<T: Float>(
    x: &Tensor<T>,
    r: (Tensor<T>, Tensor<T>),
    m: usize,
    w: usize,
    i: nat,
    j: int,
)
    requires
        deterministic::<T>(),
        strict::<T>(),
        grid(x@, m, w),
        i < m,
        0 <= j < w,
        call_ensures(absmax_int8::<T>, (x,), r),
    ensures
        !flt(r.1.data@[i as int], fabs(x@.row(i)[j])),
        r.1.data@.len() == m,
{
    crate::agreement::lemma_row(x@, m, w, i);
    crate::quantising::law_row_scale_is_largest_size(x@.row(i), j);
    assert(r.1@.data == r.1.data@);
}

/// A shuffle draws the item of the last place by the remainder of the next state, takes one
/// draw for every place but the first, and keeps the items.
pub proof fn law_called_shuffle<T>(slice: &mut [T], rng: &mut Lcg)
    requires
        2 <= old(slice)@.len() <= usize::MAX,
        call_ensures(shuffle_in_place::<T>, (slice, rng), ()),
    ensures
        ({
            let n = old(slice)@.len();
            &&& final(slice)@.last() == old(slice)@[lcg_next(old(rng).state) as int % n as int]
            &&& final(slice)@.len() == n
            &&& final(slice)@.to_multiset() == old(slice)@.to_multiset()
            &&& final(rng).state == lcg_skip(old(rng).state, (n - 1) as nat)
        }),
{
    let n = old(slice)@.len();
    law_shuffle_draws_every_place(old(slice)@, old(rng).state, (n - 1) as nat);
    assert(final(slice)@.len() == n) by {
        old(slice)@.to_multiset_ensures();
        final(slice)@.to_multiset_ensures();
    }
}

/// The loss that a step of regression returns, times the number of targets, is the sum of
/// the squares of what the predictions miss them by.
pub proof fn law_called_regression<T: Float>(
    x: &Tensor<T>,
    y: &Tensor<T>,
    w: &Tensor<T>,
    lr: T,
    r: (T, Tensor<T>),
)
    requires
        deterministic::<T>(),
        shares_out::<T>(),
        matmul_of(x@, w@).data.len() == y.data@.len(),
        0 < y.data@.len() <= usize::MAX,
        call_ensures(regression_step::<T>, (x, y, w, lr, false), r),
    ensures
        ({
            let miss = sub_of(matmul_of(x@, w@), y@);
            fmul(fcount::<T>(y.data@.len() as usize), r.0) == inner(miss, miss)
        }),
{
    let t = choose|t: Graph<T>|
        {
            let n = t.nodes.len();
            &&& #[trigger] loss_graph(t, x@, y@, w@, false)
            &&& r.0 == t.nodes.last().value.data[0]
            &&& r.1@ == descended_of(w@, back(t.nodes, seeded(t, (n - 1) as usize), n)[2], lr)
        };
    let s = loss_steps::<T>(false);
    assert forall|k: int| 0 <= k < 7 implies #[trigger] t.nodes[k].step == s[k] by {
        assert(t.nodes[empty_graph::<T>(t.mark).nodes.len() + k].step == s[k]);
    }
    law_recorded_values(t, 3);
    law_recorded_values(t, 4);
    law_recorded_values(t, 5);
    law_recorded_values(t, 6);
    assert(t.nodes[3].step == s[3] && t.nodes[4].step == s[4]);
    assert(t.nodes[5].step == s[5] && t.nodes[6].step == s[6]);
    let miss = sub_of(matmul_of(x@, w@), y@);
    let all = mul_of(miss, miss);
    exact_share(fsum(all.data), y.data@.len() as usize);
    assert(all.data =~= Seq::new(miss.data.len(), |k: int| fmul(miss.data[k], miss.data[k])));
}

/// Tokens that text is encoded to stand for its bytes.
pub proof fn law_called_tokens(b: &Bpe, text: &str, ids: Vec<usize>, all: &[usize], bytes: Vec<u8>)
    requires
        b.wf(),
        b.merges@.len() + 256 <= 0x1_0000_0000,
        all@ == ids@,
        call_ensures(Bpe::encode, (b, text), ids),
        call_ensures(Bpe::decode_bytes, (b, all), bytes),
    ensures
        bytes@ == vstd::utf8::encode_utf8(text@),
{
    crate::bpe::law_tokens_keep_bytes(b.merges@, vstd::utf8::encode_utf8(text@));
}

/// The first merge of a tokeniser that is trained joins the pair of bytes that occurs most
/// often in the corpus.
pub proof fn law_called_training(corpus: &[u8], size: usize, r: Bpe, q: (u32, u32))
    requires
        256 < size,
        call_ensures(Bpe::train, (corpus, size), r),
    ensures
        ({
            let s = byte_tokens(corpus@);
            &&& pair_count(s, q) >= 2 ==> r.merges@.len() > 0
            &&& r.merges@.len() > 0 ==> pair_count(s, r.merges@[0]) >= 2 && pair_count(s, q)
                <= pair_count(s, r.merges@[0])
            &&& r.merges@.len() + 256 <= size
        }),
{
    crate::words::law_most_frequent_pair_is_merged(
        byte_tokens(corpus@),
        0,
        (size - 256) as nat,
        q,
    );
}

/// The weights of a new model depend on its seed alone, and draw on from it: every item of
/// the embedding is the scaled number of its draw.
pub proof fn law_called_model<T: Float>(c: &ModelConfig, seed: u64, r: Model<T>, k: int)
    requires
        deterministic::<T>(),
        0 < c.n_blocks,
        0 <= k < c.vocab_size * c.hidden_dim,
        call_ensures(Model::<T>::new, (c, seed), r),
    ensures
        r@.embed.data[k] == fmul(
            signed_unit::<T>(lcg_skip(lcg_start(seed), (k + 1) as nat)),
            root_scale::<T>(c.hidden_dim),
        ),
        r@.blocks.len() == c.n_blocks,
{
    crate::chance::law_model_draws_in_turn::<T>(*c, seed, 0, k);
}

/// Text that a vocabulary encodes is decoded as it was.
pub proof fn law_called_vocabulary(
    v: &Vocab,
    text: &str,
    ids: Vec<usize>,
    all: &[usize],
    back: String,
)
    requires
        v.wf(),
        v.covers(text@),
        all@ == ids@,
        call_ensures(Vocab::encode, (v, text), ids),
        call_ensures(Vocab::decode, (v, all), back),
    ensures
        back@ == text@,
        ids@.len() == text@.len(),
{
    crate::data::law_vocab_round_trip(v, text@);
}

/// What is kept of a prompt and what is dropped: together as many characters as it has,
/// known ones and others.
pub proof fn law_called_filter(v: &Vocab, raw: &str, r: (String, String))
    requires
        v.wf(),
        call_ensures(filter_prompt, (v, raw), r),
    ensures
        r.0@.len() + r.1@.len() == raw@.len(),
        v.covers(raw@) ==> r.0@ == raw@,
        forall|k: int| 0 <= k < r.1@.len() ==> !v.knows(#[trigger] r.1@[k]),
{
    crate::words::law_sifting_parts_a_prompt(v, raw@, raw@.len());
    assert(raw@.take(raw@.len() as int) =~= raw@);
}

/// The blocks that are returned for items hold a thread for each, 256 to a block, and none
/// is without one.
pub proof fn law_called_blocks(n: usize, r: Option<u32>)
    requires
        call_ensures(grid_1d, (n,), r),
    ensures
        n <= 0x7FFF_FFFF <==> r is Some,
        r matches Some(b) ==> n <= b * 256 < n + 256,
{
    law_grid_covers(n as int, 256);
}

/// The same of blocks of sixteen by sixteen.
pub proof fn law_called_tiles(cols: usize, rows: usize, r: Option<(u32, u32)>)
    requires
        call_ensures(grid_2d, (cols, rows), r),
    ensures
        cols <= 0x7FFF_FFFF && rows <= 0x7FFF_FFFF <==> r is Some,
        r matches Some(b) ==> cols <= b.0 * 16 < cols + 16 && rows <= b.1 * 16 < rows + 16,
{
    law_grid_covers(cols as int, 16);
    law_grid_covers(rows as int, 16);
}

/// The plan that is returned for a product follows its strides.
pub proof fn law_called_plan(m: usize, k: usize, n: usize, r: BitLinearPlan)
    requires
        call_ensures(bit_linear_plan, (m, k, n), r),
    ensures
        r is Int8 <==> m <= 0x7FFF_FFFF && k <= 0x7FFF_FFFF && n <= 0x7FFF_FFFF && k % 4 == 0 && n
            % 4 == 0,
        m > 0x7FFF_FFFF || k > 0x7FFF_FFFF || n > 0x7FFF_FFFF <==> r is TooLarge,
{
    crate::runs::law_plan_follows_strides(m, k, n);
}

/// What is held out is no more than the corpus has, and the same for any share above a
/// half.
pub proof fn law_called_split<T: Float>(n: usize, a: T, b: T, r: usize, q: usize)
    requires
        deterministic::<T>(),
        flt(fbits::<T>(0x3F00_0000), a),
        flt(fbits::<T>(0x3F00_0000), b),
        !flt(a, fzero::<T>()),
        !flt(b, fzero::<T>()),
        call_ensures(split_point::<T>, (n, a), r),
        call_ensures(split_point::<T>, (n, b), q),
    ensures
        r == q,
        r <= n,
{
}

/// Held-out ids are evaluated where they make more than one window.
pub proof fn law_called_wanted(n: usize, seq_len: usize, r: bool)
    requires
        call_ensures(val_windows_wanted, (n, seq_len), r),
    ensures
        r <==> n - seq_len >= 2,
{
}

/// A line is due after the first step and after the last, and for the others as it was due
/// one round of steps before; in the first round it is due after no other step.
pub proof fn law_called_line(step: usize, n: usize, every: usize, r: bool, q: bool)
    requires
        every > 0,
        step < n,
        step + every < n - 1,
        call_ensures(line_due, (step, n, every), r),
        call_ensures(line_due, ((step + every) as usize, n, every), q),
    ensures
        r == q,
        step == 0 ==> r,
        0 < step < every ==> !r,
{
    vstd::arithmetic::div_mod::lemma_mod_add_multiples_vanish(step as int, every as int);
    if step < every {
        vstd::arithmetic::div_mod::lemma_small_mod(step as nat, every as nat);
    }
}

/// A line is due after the last step.
pub proof fn law_called_last_line(n: usize, every: usize, r: bool)
    requires
        every > 0,
        n > 0,
        call_ensures(line_due, ((n - 1) as usize, n, every), r),
    ensures
        r,
{
}

/// A run that is returned has a lowest loss that is not above its first, and has made all
/// its steps.
pub proof fn law_called_run<T: Float>(
    cfg: TrainConfig<T>,
    text: &str,
    r: Option<(T, T, Model<T>, Vocab, OptimState<T>)>,
)
    requires
        strict::<T>(),
        deterministic::<T>(),
        call_ensures(train_bitnet_lm::<T>, (cfg, text), r),
    ensures
        r matches Some(x) ==> !flt(x.0, x.1),
        r matches Some(x) ==> x.4.step_count == cfg.n_steps + match cfg.start_from_optim {
            Some(o) => o.step_count as int,
            None => 0,
        },
        r is Some <==> split_at(text@.len() as usize, cfg.val_split) > run_sizes(
            cfg,
            text@,
        ).max_seq_len,
{
    if let Some(x) = r {
        let runs = choose|runs: Seq<Trainer<T>>|
            {
                &&& #[trigger] chained(runs)
                &&& runs.len() == cfg.n_steps + 1
                &&& started(runs[0], cfg, text@)
                &&& x == (
                    runs.last().initial_loss,
                    runs.last().min_loss,
                    runs.last().model,
                    runs.last().vocab,
                    runs.last().opt.state,
                )
            };
        law_lowest_loss_never_rises(runs, cfg.n_steps as nat);
        law_run_counts_its_steps(runs, cfg.n_steps as nat);
    }
}

/// A text decoded from more ids starts with that of the first ones.
proof fn lemma_decoded_start(v: &Vocab, g: Seq<usize>, h: Seq<usize>)
    requires
        g.len() <= h.len(),
        h.take(g.len() as int) == g,
    ensures
        v.decoded(g) == v.decoded(h).take(g.len() as int),
        v.decoded(g).len() == g.len(),
{
    assert forall|i: int| 0 <= i < g.len() implies #[trigger] g[i] == h[i] by {
        assert(h.take(g.len() as int)[i] == h[i]);
    }
    assert(v.decoded(g) =~= v.decoded(h).take(g.len() as int));
}

/// Asking for more tokens continues the same text: the greedy continuation by some tokens
/// starts the one by more.
#[verifier::spinoff_prover]
#[verifier::rlimit(60)]
pub proof fn law_called_generation<T: Float>(
    m: &Model<T>,
    v: &Vocab,
    prompt: &str,
    a: usize,
    b: usize,
    short: String,
    long: String,
)
    requires
        deterministic::<T>(),
        a <= b,
        call_ensures(generate::<T>, (m, v, prompt, a), short),
        call_ensures(generate::<T>, (m, v, prompt, b), long),
    ensures
        short@ == long@.take(short@.len() as int),
{
    let ids = v.encoded(prompt@);
    let mode = SamplingMode::<T>::Greedy;
    let s = lcg_start(0);
    law_generation_goes_on(m@, m.config, ids, mode, s, a as nat, (b - a) as nat);
    lemma_decoded_start(
        v,
        generated(m@, m.config, ids, mode, s, a as nat).0,
        generated(m@, m.config, ids, mode, s, b as nat).0,
    );
}

/// Targets are handed to a kernel exactly where each is a token and fits a signed 32-bit
/// argument.
pub proof fn law_called_targets(targets: &[usize], vocab: usize, r: Option<Vec<i32>>, i: int)
    requires
        vocab <= 0x7FFF_FFFF,
        0 <= i < targets@.len(),
        call_ensures(target_args, (targets, vocab), r),
    ensures
        r is Some <==> ids_below(targets@, vocab),
        r matches Some(x) ==> x@.len() == targets@.len() && x@[i] == targets@[i],
{
    if let Some(x) = r {
        assert forall|k: int| 0 <= k < targets@.len() implies #[trigger] targets@[k] < vocab by {
            assert(x@[k] == targets@[k]);
        }
    }
}

/// A configuration that goes on from a saved optimiser has, from its first step on, the
/// rates of a single run that is longer by the steps already made.
pub proof fn law_called_resume<T: Float>(
    cfg: &mut TrainConfig<T>,
    m: Model<T>,
    o: OptimState<T>,
    step: usize,
)
    requires
        old(cfg).start_step_offset == 0,
        old(cfg).cosine_total_steps is None,
        o.step_count + old(cfg).n_steps <= usize::MAX,
        step < old(cfg).n_steps,
        call_ensures(TrainConfig::<T>::resume, (cfg, m, Some(o)), ()),
    ensures
        final(cfg).start_from == Some(m),
        final(cfg).start_from_optim == Some(o),
        final(cfg).n_steps == old(cfg).n_steps,
        final(cfg).rate_at(step) == scheduled(
            (o.step_count + step) as usize,
            old(cfg).warmup_steps,
            (o.step_count + old(cfg).n_steps) as usize,
            old(cfg).peak_lr,
            old(cfg).floor_lr,
        ),
{
}

/// The rate that is returned for a step of a configuration is that of the schedule.
pub proof fn law_called_step_rate<T: Float>(cfg: &TrainConfig<T>, step: usize, r: T, q: T)
    requires
        deterministic::<T>(),
        step + cfg.start_step_offset <= usize::MAX,
        call_ensures(TrainConfig::<T>::lr_at, (cfg, step), r),
        call_ensures(
            cosine_lr::<T>,
            (
                (step + cfg.start_step_offset) as usize,
                cfg.warmup_steps,
                match cfg.cosine_total_steps {
                    Some(n) => n,
                    None => cfg.n_steps,
                },
                cfg.peak_lr,
                cfg.floor_lr,
            ),
            q,
        ),
    ensures
        r == q,
{
}

/// The last evaluation is one over five times as many windows, or over all.
pub proof fn law_called_last_evaluation<T: Float>(
    t: &Trainer<T>,
    n: usize,
    r: Option<(T, T)>,
    q: (T, T),
)
    requires
        deterministic::<T>(),
        t.val_windows@.len() <= usize::MAX,
        t.config.val_eval_samples * 5 <= usize::MAX,
        n == last_samples(t.config.val_eval_samples, t.val_windows@.len()),
        call_ensures(Trainer::<T>::final_eval, (t,), r),
        call_ensures(eval_val_perplexity::<T>, (&t.model, &t.val_windows, n), q),
    ensures
        r is Some ==> r == Some(q),
        t.val_windows@.len() == 0 ==> r is None,
{
}

/// The gradient of the tied embedding that is returned takes in both of its uses.
pub proof fn law_called_tied_gradient<T: Float>(
    x: &Tensor<T>,
    lm: &Tensor<T>,
    ids: &[usize],
    d: Array<T>,
    r: Tensor<T>,
    v: usize,
    h: usize,
)
    requires
        deterministic::<T>(),
        ring::<T>(),
        0 < ids@.len() <= usize::MAX,
        ids_below(ids@, v),
        grid(lm@, v, h),
        grid(d, v, h),
        grid(x@, ids@.len() as usize, h),
        call_ensures(tied_embed_grad::<T>, (x, lm, ids), r),
    ensures
        inner(r@, d) == fadd(inner(x@, embed_of(d, ids@)), inner(lm@, d)),
{
    crate::runs::law_tied_gradient_takes_in_both(x@, lm@, d, ids@, v, h);
}

/// The weight that a step of regression returns lies the rate times the slope away.
pub proof fn law_called_regression_weight<T: Float>(
    x: &Tensor<T>,
    y: &Tensor<T>,
    w: &Tensor<T>,
    lr: T,
    r: (T, Tensor<T>),
    m: usize,
    k: usize,
    n: usize,
    i: nat,
    j: nat,
)
    requires
        deterministic::<T>(),
        ring::<T>(),
        shares_out::<T>(),
        grid(x@, m, k),
        grid(w@, k, n),
        grid(y@, m, n),
        0 < m * n <= usize::MAX,
        i < k,
        j < n,
        call_ensures(regression_step::<T>, (x, y, w, lr, false), r),
    ensures
        ({
            let e = sub_of(matmul_of(x@, w@), y@);
            let slope = fsum(
                Seq::new(
                    m as nat,
                    |q: int| fmul(x@.row(q as nat)[i as int], e.row(q as nat)[j as int]),
                ),
            );
            fmul(
                fcount::<T>((m * n) as usize),
                fsub(w@.row(i)[j as int], r.1@.row(i)[j as int]),
            ) == fmul(lr, fadd(slope, slope))
        }),
{
    law_regression_goes_downhill(x@, y@, w@, lr, r.0, r.1@, m, k, n, i, j);
}

/// A demonstration's loss fell where its lowest is below seven tenths of its first.
pub proof fn law_called_fell<T: Float>(d: &DemoLosses<T>, r: bool)
    requires
        deterministic::<T>(),
        call_ensures(DemoLosses::<T>::fell, (d,), r),
    ensures
        r <==> flt(d.lowest, fmul(d.first, fbits::<T>(0x3F33_3333))),
{
}

/// Format bytes are told apart: reading back the byte of a format gives the format, and no
/// two formats share one.
pub proof fn law_called_format(f: Format, g: Format, a: u8, b: u8)
    requires
        call_ensures(Format::byte, (f,), a),
        call_ensures(Format::byte, (g,), b),
    ensures
        a == b ==> f == g,
        a < 4,
        crate::export::format_of(a) == Ok::<Format, crate::codec::ReadError>(f),
{
}

} // verus!
