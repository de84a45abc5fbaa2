//! Training: the gradients of a window and of a batch, the optimiser step and the
//! held-out evaluation.
use crate::attention::score_scale;
use crate::autograd::{arrays, back, entry_ok, seeded, Graph, Step, Tape, Var};
use crate::data::Lcg;
use crate::float::{
    deterministic, fadd, fbits, fcount, fdiv, fexp, flt, fmul, fzero, Float, NAN, POS_INFINITY, ZERO,
};
use crate::layout::{items, same_form};
use crate::model::{
    consecutive, forward_steps, lcg_skip, lemma_leaves_fit, lemma_planted, lemma_shaped_wf,
    logits_of, marked, planted, run_fits, Model, ModelConfig, ModelLeaves,
};
use crate::ops::{cross_entropy_of, ids_below, mean_loss};
use crate::optim::{aligned, clip_grad_norm_tensors, moments_fit, norm_of, step_at, AdamW};
use crate::tensor::{add_of, each, lemma_volume1, Array, Tensor};
use vstd::prelude::*;

verus! {

/// The bit pattern of 0.7.
pub const SEVEN_TENTHS: u32 = 0x3F33_3333;

/// How many steps of a short run lie between two lines.
pub const DEMO_LINE_EVERY: usize = 10;

/// The window can be run through the model and scored.
pub open spec fn window_ok<T: Float>(m: Model<T>, input: Seq<usize>, target: Seq<usize>) -> bool {
    m.shaped() && window_known(m.config, input, target)
}

/// A model of these sizes takes the window and knows its ids.
pub open spec fn window_known(c: ModelConfig, input: Seq<usize>, target: Seq<usize>) -> bool {
    &&& input.len() == target.len()
    &&& input.len() <= c.max_seq_len
    &&& run_fits(c, input.len())
    &&& ids_below(input, c.vocab_size)
    &&& ids_below(target, c.vocab_size)
}

/// A model of these sizes takes a listed window and knows its ids.
pub open spec fn pair_known(c: ModelConfig, w: (Vec<usize>, Vec<usize>)) -> bool {
    window_known(c, w.0@, w.1@)
}

/// The loss of a window.
pub open spec fn window_loss<T: Float>(m: Model<T>, input: Seq<usize>, target: Seq<usize>) -> T {
    mean_loss(logits_of(m@, input, m.config.head_dim), target)
}

/// How a window's loss came to be on a tape: the weights as leaves, the steps of
/// the forward pass, and the loss as the last node.
pub struct WindowTrace<T> {
    pub leaves: ModelLeaves,
    pub empty: Graph<T>,
    pub leafed: Graph<T>,
    pub run: Graph<T>,
    pub scored: Graph<T>,
}

/// The trace is that of a window on an empty tape.
pub open spec fn trace_ok<T: Float>(
    w: WindowTrace<T>,
    m: Model<T>,
    input: Seq<usize>,
    target: Seq<usize>,
) -> bool {
    &&& w.empty == (Graph::<T> { mark: w.empty.mark, nodes: seq![], grads: seq![] })
    &&& planted(w.empty, w.leafed, items(m.parts()))
    &&& same_form(w.leaves.parts(), m.parts())
    &&& items(w.leaves.parts()).len() == items(m.parts()).len()
    &&& consecutive(items(w.leaves.parts()), 0)
    &&& marked(items(w.leaves.parts()), w.empty.mark)
    &&& w.leafed.extends_to(w.run)
    &&& deterministic::<T>() ==> w.leafed.records(
        w.run,
        forward_steps(
            w.leafed.nodes.len() as int,
            w.leaves,
            input,
            score_scale::<T>(m.config.head_dim),
        ),
    )
    &&& w.run.grows_by(
        w.scored,
        Step::CrossEntropy((w.run.nodes.len() - 1) as usize, target),
    )
}

/// The gradients on the tape of a trace after the backward pass from the loss.
pub open spec fn trace_grads<T: Float>(w: WindowTrace<T>) -> Seq<Array<T>> {
    let n = w.scored.nodes.len();
    back(w.scored.nodes, seeded(w.scored, (n - 1) as usize), n)
}

/// What is returned for a window: the loss, and the gradient of every weight.
pub open spec fn window_result<T: Float>(
    r: (Seq<Tensor<T>>, T),
    m: Model<T>,
    input: Seq<usize>,
    target: Seq<usize>,
) -> bool {
    &&& moments_fit(r.0, m)
    &&& deterministic::<T>() ==> {
        &&& r.1 == window_loss(m, input, target)
        &&& exists|w: WindowTrace<T>|
            {
                &&& #[trigger] trace_ok(w, m, input, target)
                &&& forall|k: int|
                    0 <= k < r.0.len() ==> (#[trigger] r.0[k])@ == trace_grads(w)[k]
            }
    }
}

/// Runs a window on a tape up to its loss.
fn run_window<T: Float>(model: &Model<T>, input: &[usize], target: &[usize]) -> (r: (
    Tape<T>,
    ModelLeaves,
    Var,
    Ghost<WindowTrace<T>>,
))
    requires
        window_ok(*model, input@, target@),
    ensures
        r.0.wf(),
        trace_ok(r.3@, *model, input@, target@),
        r.3@.leaves == r.1,
        r.3@.scored == r.0@,
        r.2.id == r.0@.nodes.len() - 1,
        r.0@.has(r.2),
        r.0@.value(r.2).dims == seq![1usize],
        deterministic::<T>() ==> r.0@.value(r.2) == cross_entropy_of(
            logits_of(model@, input@, model.config.head_dim),
            target@,
        ),
{
    proof {
        lemma_shaped_wf(*model);
    }
    let mut tape: Tape<T> = Tape::new();
    let ghost empty = tape@;
    let leaves = model.register_leaves(&mut tape);
    let ghost leafed = tape@;
    proof {
        lemma_planted(empty, leafed, *model, leaves);
        lemma_leaves_fit(leafed, *model, leaves, input@);
        assert(leafed.value(leaves.token_embed) == model@.embed);
    }
    let logits = model.forward(&mut tape, &leaves, input);
    let ghost run = tape@;
    let loss = logits.cross_entropy(&mut tape, target);
    proof {
        assert(entry_ok(tape@.nodes, tape@.nodes.len() - 1));
    }
    let ghost w = WindowTrace { leaves, empty, leafed, run, scored: tape@ };
    (tape, leaves, loss, Ghost(w))
}

/// The loss of a window.
pub fn eval_loss<T: Float>(model: &Model<T>, input: &[usize], target: &[usize]) -> (r: T)
    requires
        window_ok(*model, input@, target@),
    ensures
        deterministic::<T>() ==> r == window_loss(*model, input@, target@),
{
    let (tape, leaves, loss, trace) = run_window(model, input, target);
    let value = loss.value(&tape);
    proof {
        lemma_volume1(value.shape@);
    }
    value.data[0]
}

/// The gradient of every weight for a window, in the one order, and the loss.
pub fn compute_grads_for_window<T: Float>(
    model: &Model<T>,
    input: &[usize],
    target: &[usize],
) -> (r: (Vec<Tensor<T>>, T))
    requires
        window_ok(*model, input@, target@),
    ensures
        window_result((r.0@, r.1), *model, input@, target@),
{
    let (mut tape, leaves, loss, trace) = run_window(model, input, target);
    let value = loss.value(&tape);
    proof {
        lemma_volume1(value.shape@);
    }
    let loss_val = value.data[0];
    let ghost w = trace@;
    let ghost all = items(leaves.parts());
    proof {
        lemma_trace_places(w, *model, input@, target@);
    }
    tape.backward(loss.id);
    proof {
        assert forall|k: int| 0 <= k < all.len() implies tape@.has(#[trigger] all[k]) by {
            assert(holds_weight(w, *model, k));
        }
    }
    let grads = model.for_each_grad(&tape, &leaves);
    proof {
        assert forall|k: int| 0 <= k < grads@.len() implies (#[trigger] grads@[k]).wf()
            && grads@[k].shape@ == items(model.parts())[k].shape@ by {
            assert(holds_weight(w, *model, k));
        }
        if deterministic::<T>() {
            assert forall|k: int| 0 <= k < grads@.len() implies (#[trigger] grads@[k])@
                == trace_grads(w)[k] by {
                assert(holds_weight(w, *model, k));
            }
            assert(trace_ok(w, *model, input@, target@));
        }
    }
    (grads, loss_val)
}

/// On the tape of a trace, node `k` is leaf `k` and holds weight `k`.
spec fn holds_weight<T: Float>(w: WindowTrace<T>, m: Model<T>, k: int) -> bool {
    &&& w.scored.has(items(w.leaves.parts())[k])
    &&& items(w.leaves.parts())[k].id == k
    &&& w.scored.nodes[k].value == items(m.parts())[k]@
}

/// The tape of a trace starts with the weights.
proof fn lemma_trace_places<T: Float>(
    w: WindowTrace<T>,
    m: Model<T>,
    input: Seq<usize>,
    target: Seq<usize>,
)
    requires
        trace_ok(w, m, input, target),
    ensures
        forall|k: int| 0 <= k < items(m.parts()).len() ==> #[trigger] holds_weight(w, m, k),
{
    let n = w.leafed.nodes.len() as int;
    assert forall|k: int| 0 <= k < items(m.parts()).len() implies #[trigger] holds_weight(
        w,
        m,
        k,
    ) by {
        assert(items(w.leaves.parts())[k].id == k);
        assert(w.leafed.nodes[w.empty.nodes.len() + k].value == items(m.parts())[k]@);
        assert(w.run.nodes.take(n)[k] == w.run.nodes[k]);
        assert(w.scored.nodes.drop_last()[k] == w.scored.nodes[k]);
    }
}

/// The windows drawn for a batch: each a remainder of the next state.
pub open spec fn drawn_indices(state: u64, n: usize, batch: nat) -> Seq<usize> {
    Seq::new(batch, |k: int| (lcg_skip(state, (k + 1) as nat) % (n as u64)) as usize)
}

/// Draws the windows of a batch, all before any of them is run.
pub fn batch_indices(rng: &mut Lcg, n: usize, batch: usize) -> (r: Vec<usize>)
    requires
        n > 0,
    ensures
        r@ == drawn_indices(old(rng).state, n, batch as nat),
        final(rng).state == lcg_skip(old(rng).state, batch as nat),
        ids_below(r@, n),
{
    let ghost start = rng.state;
    let mut out: Vec<usize> = Vec::new();
    while out.len() < batch
        invariant
            n > 0,
            out@.len() <= batch,
            rng.state == lcg_skip(start, out@.len()),
            out@ =~= drawn_indices(start, n, out@.len()),
            ids_below(out@, n),
        decreases batch - out@.len(),
    {
        let i: usize = rng.gen_range(n);
        out.push(i);
    }
    out
}

/// How many windows each worker of a batch gets: the batch shared out among
/// at least one worker and no more than there are windows.
pub fn worker_share(batch: usize, n_workers: usize) -> (r: usize)
    requires
        batch > 0,
    ensures
        ({
            let w = worker_count(batch, n_workers);
            &&& 0 < w <= batch
            &&& r == (batch + w - 1) / w
            &&& r * w >= batch
        }),
{
    let least: usize = if n_workers < 1 {
        1
    } else {
        n_workers
    };
    let w: usize = if least < batch {
        least
    } else {
        batch
    };
    let whole: usize = batch / w;
    let rest: usize = batch % w;
    proof {
        vstd::arithmetic::div_mod::lemma_fundamental_div_mod(batch as int, w as int);
        if rest != 0 {
            assert(w != 1);
            assert(2 * whole <= w * whole) by (nonlinear_arith)
                requires
                    w >= 2,
                    whole >= 0,
            ;
        }
    }
    let r: usize = if rest == 0 {
        whole
    } else {
        whole + 1
    };
    proof {
        let (b, d) = (batch as int, w as int);
        vstd::arithmetic::div_mod::lemma_fundamental_div_mod(b, d);
        assert(d * (b / d) == (b / d) * d) by (nonlinear_arith);
        if rest == 0 {
            vstd::arithmetic::div_mod::lemma_fundamental_div_mod_converse(
                b + d - 1,
                d,
                whole as int,
                d - 1,
            );
        } else {
            assert((whole + 1) * d == whole * d + d) by (nonlinear_arith);
            vstd::arithmetic::div_mod::lemma_fundamental_div_mod_converse(
                b + d - 1,
                d,
                whole + 1,
                rest - 1,
            );
        }
    }
    r
}

/// The number of workers of a batch.
pub open spec fn worker_count(batch: usize, n_workers: usize) -> int {
    let least: int = if n_workers < 1 {
        1
    } else {
        n_workers as int
    };
    if least < batch {
        least
    } else {
        batch as int
    }
}

/// Tensor `k` of the first `n` results, added up from the left.
pub open spec fn grad_sum<T: Float>(rs: Seq<(Vec<Tensor<T>>, T)>, k: int, n: nat) -> Array<T>
    decreases n,
{
    if n <= 1 {
        rs[0].0@[k]@
    } else {
        add_of(grad_sum(rs, k, (n - 1) as nat), rs[n - 1].0@[k]@)
    }
}

/// The losses of the first `n` results, added up from the left.
pub open spec fn loss_sum<T: Float>(rs: Seq<(Vec<Tensor<T>>, T)>, n: nat) -> T
    decreases n,
{
    if n <= 1 {
        rs[0].1
    } else {
        fadd(loss_sum(rs, (n - 1) as nat), rs[n - 1].1)
    }
}

/// Every item divided by a count.
pub open spec fn shared_out<T: Float>(a: Array<T>, n: usize) -> Array<T> {
    each(a, |x: T| fdiv(x, fcount::<T>(n)))
}

/// The mean of some results: of every gradient and of the loss.
pub open spec fn averaged<T: Float>(
    rs: Seq<(Vec<Tensor<T>>, T)>,
    r: (Seq<Tensor<T>>, T),
) -> bool {
    let n = rs.len() as usize;
    &&& r.0.len() == rs[0].0@.len()
    &&& forall|k: int|
        0 <= k < r.0.len() ==> (#[trigger] r.0[k])@ == shared_out(
            grad_sum(rs, k, rs.len()),
            n,
        )
    &&& r.1 == fdiv(loss_sum(rs, rs.len()), fcount::<T>(n))
}

/// Every item divided by a count.
fn divide_all<T: Float>(t: &Tensor<T>, n: usize) -> (r: Tensor<T>)
    requires
        t.wf(),
    ensures
        r.wf(),
        r.shape@ == t.shape@,
        deterministic::<T>() ==> r@ == shared_out(t@, n),
{
    let data = crate::inference::divide_row(t.data.as_slice(), T::from_count(n));
    let r = Tensor { data, shape: crate::tensor::copy_slice(t.shape.as_slice()) };
    proof {
        if deterministic::<T>() {
            assert(r@ =~= shared_out(t@, n));
        }
    }
    r
}

/// The tensors of two lists added pairwise.
fn add_all<T: Float>(a: &Vec<Tensor<T>>, b: &Vec<Tensor<T>>) -> (r: Vec<Tensor<T>>)
    requires
        aligned(a@, b@),
    ensures
        aligned(a@, r@),
        deterministic::<T>() ==> forall|k: int|
            0 <= k < r@.len() ==> (#[trigger] r@[k])@ == add_of(a@[k]@, b@[k]@),
{
    let mut out: Vec<Tensor<T>> = Vec::new();
    let mut k: usize = 0;
    while k < a.len()
        invariant
            k <= a@.len(),
            aligned(a@, b@),
            out@.len() == k,
            forall|q: int|
                0 <= q < k ==> (#[trigger] out@[q]).wf() && out@[q].shape@ == a@[q].shape@,
            deterministic::<T>() ==> forall|q: int|
                0 <= q < k ==> (#[trigger] out@[q])@ == add_of(a@[q]@, b@[q]@),
        decreases a@.len() - k,
    {
        proof {
            assert(a@[k as int].wf());
        }
        out.push(Tensor::add(&a[k], &b[k]));
        k += 1;
    }
    proof {
        assert forall|q: int| 0 <= q < a@.len() implies (#[trigger] a@[q]).wf() && out@[q].wf()
            && out@[q].shape@ == a@[q].shape@ by {
            assert(out@[q].wf());
        }
    }
    out
}

/// Two lists aligned with a third are aligned.
proof fn lemma_aligned_both<T: Float>(a: Seq<Tensor<T>>, b: Seq<Tensor<T>>, c: Seq<Tensor<T>>)
    requires
        aligned(a, b),
        aligned(a, c),
    ensures
        aligned(b, c),
{
    assert forall|k: int| 0 <= k < b.len() implies (#[trigger] b[k]).wf() && c[k].wf()
        && c[k].shape@ == b[k].shape@ by {
        assert(a[k].wf() && b[k].wf() && b[k].shape@ == a[k].shape@);
        assert(c[k].wf() && c[k].shape@ == a[k].shape@);
    }
}

/// The mean of some results: of every gradient and of the loss.
pub fn average_grads<T: Float>(results: &Vec<(Vec<Tensor<T>>, T)>) -> (r: (Vec<Tensor<T>>, T))
    requires
        results@.len() > 0,
        forall|i: int|
            0 <= i < results@.len() ==> aligned(results@[0].0@, (#[trigger] results@[i]).0@),
    ensures
        aligned(results@[0].0@, r.0@),
        deterministic::<T>() ==> averaged(results@, (r.0@, r.1)),
{
    let ghost rs = results@;
    let ghost first = results@[0].0@;
    let n: usize = results.len();
    proof {
        assert(aligned(first, results@[0].0@));
    }
    let mut sums: Vec<Tensor<T>> = Vec::new();
    let mut k: usize = 0;
    while k < results[0].0.len()
        invariant
            k <= first.len(),
            results@.len() > 0,
            first == results@[0].0@,
            aligned(first, first),
            sums@.len() == k,
            forall|q: int| 0 <= q < k ==> (#[trigger] sums@[q])@ == first[q]@,
        decreases first.len() - k,
    {
        sums.push(results[0].0[k].clone());
        k += 1;
    }
    let mut total = results[0].1;
    proof {
        assert forall|q: int| 0 <= q < first.len() implies (#[trigger] first[q]).wf()
            && sums@[q].wf() && sums@[q].shape@ == first[q].shape@ by {
            assert(sums@[q]@ == first[q]@);
        }
    }
    let mut i: usize = 1;
    while i < n
        invariant
            1 <= i <= n,
            n == results@.len(),
            rs == results@,
            first == results@[0].0@,
            forall|j: int|
                0 <= j < results@.len() ==> aligned(first, (#[trigger] results@[j]).0@),
            aligned(first, sums@),
            deterministic::<T>() ==> {
                &&& forall|q: int|
                    0 <= q < first.len() ==> (#[trigger] sums@[q])@ == grad_sum(rs, q, i as nat)
                &&& total == loss_sum(rs, i as nat)
            },
        decreases n - i,
    {
        proof {
            assert(aligned(first, results@[i as int].0@));
            lemma_aligned_both(first, sums@, results@[i as int].0@);
        }
        let ghost before = sums@;
        sums = add_all(&sums, &results[i].0);
        total = total.plus(results[i].1);
        proof {
            assert forall|q: int| 0 <= q < first.len() implies (#[trigger] first[q]).wf()
                && sums@[q].wf() && sums@[q].shape@ == first[q].shape@ by {
                assert(before[q].wf());
            }
        }
        i += 1;
    }
    let mut out: Vec<Tensor<T>> = Vec::new();
    let mut q: usize = 0;
    while q < sums.len()
        invariant
            q <= sums@.len(),
            aligned(first, sums@),
            out@.len() == q,
            forall|j: int|
                0 <= j < q ==> (#[trigger] out@[j]).wf() && out@[j].shape@ == first[j].shape@,
            deterministic::<T>() ==> forall|j: int|
                0 <= j < q ==> (#[trigger] out@[j])@ == shared_out(sums@[j]@, n),
        decreases sums@.len() - q,
    {
        proof {
            assert(first[q as int].wf());
        }
        out.push(divide_all(&sums[q], n));
        q += 1;
    }
    let mean = total.over(T::from_count(n));
    proof {
        assert forall|j: int| 0 <= j < first.len() implies (#[trigger] first[j]).wf()
            && out@[j].wf() && out@[j].shape@ == first[j].shape@ by {
            assert(out@[j].wf());
        }
        if deterministic::<T>() {
            assert forall|j: int| 0 <= j < out@.len() implies (#[trigger] out@[j])@ == shared_out(
                grad_sum(rs, j, rs.len()),
                n,
            ) by {
                assert(sums@[j]@ == grad_sum(rs, j, rs.len()));
            }
        }
    }
    (out, mean)
}

/// The place of the window that draw `k` falls on, of `n`.
pub open spec fn place_drawn(state: u64, n: usize, k: nat) -> int {
    (lcg_skip(state, k + 1) % (n as u64)) as int
}

/// The next `count` windows that are drawn are known at these sizes.
pub open spec fn drawn_known(
    c: ModelConfig,
    ws: Seq<(Vec<usize>, Vec<usize>)>,
    state: u64,
    count: nat,
) -> bool {
    forall|k: nat|
        k < count ==> pair_known(c, ws[#[trigger] place_drawn(state, ws.len() as usize, k)])
}

/// What is returned for a batch: the mean over the drawn windows' results.
pub open spec fn batch_result<T: Float>(
    r: (Seq<Tensor<T>>, T),
    m: Model<T>,
    ws: Seq<(Vec<usize>, Vec<usize>)>,
    idx: Seq<usize>,
) -> bool {
    exists|rs: Seq<(Vec<Tensor<T>>, T)>|
        {
            &&& rs.len() == idx.len()
            &&& forall|i: int|
                0 <= i < idx.len() ==> {
                    let w = ws[idx[i] as int];
                    window_result(((#[trigger] rs[i]).0@, rs[i].1), m, w.0@, w.1@)
                }
            &&& #[trigger] averaged(rs, r)
        }
}

/// The mean gradients and loss over windows drawn from a corpus.
pub fn compute_batched_grads<T: Float>(
    model: &Model<T>,
    windows: &Vec<(Vec<usize>, Vec<usize>)>,
    rng: &mut Lcg,
    batch_size: usize,
) -> (r: (Vec<Tensor<T>>, T))
    requires
        batch_size > 0,
        windows@.len() > 0,
        model.shaped(),
        drawn_known(model.config, windows@, old(rng).state, batch_size as nat),
    ensures
        moments_fit(r.0@, *model),
        final(rng).state == lcg_skip(old(rng).state, batch_size as nat),
        deterministic::<T>() ==> batch_result(
            (r.0@, r.1),
            *model,
            windows@,
            drawn_indices(old(rng).state, windows@.len() as usize, batch_size as nat),
        ),
{
    let ghost state = rng.state;
    let idx = batch_indices(rng, windows.len(), batch_size);
    let mut results: Vec<(Vec<Tensor<T>>, T)> = Vec::new();
    let mut i: usize = 0;
    while i < idx.len()
        invariant
            i <= idx@.len(),
            ids_below(idx@, windows@.len() as usize),
            windows@.len() <= usize::MAX,
            model.shaped(),
            idx@ == drawn_indices(state, windows@.len() as usize, batch_size as nat),
            drawn_known(model.config, windows@, state, batch_size as nat),
            results@.len() == i,
            forall|q: int|
                0 <= q < i ==> window_result(
                    ((#[trigger] results@[q]).0@, results@[q].1),
                    *model,
                    windows@[idx@[q] as int].0@,
                    windows@[idx@[q] as int].1@,
                ),
        decreases idx@.len() - i,
    {
        let w = &windows[idx[i]];
        proof {
            assert(place_drawn(state, windows@.len() as usize, i as nat) == idx@[i as int]);
            assert(window_ok(
                *model,
                windows@[idx@[i as int] as int].0@,
                windows@[idx@[i as int] as int].1@,
            ));
        }
        results.push(compute_grads_for_window(model, w.0.as_slice(), w.1.as_slice()));
        i += 1;
    }
    proof {
        assert forall|q: int| 0 <= q < results@.len() implies aligned(
            results@[0].0@,
            (#[trigger] results@[q]).0@,
        ) by {
            lemma_fit_aligned(results@[0].0@, results@[q].0@, *model);
        }
    }
    let r = average_grads(&results);
    proof {
        lemma_aligned_fit(results@[0].0@, r.0@, *model);
        if deterministic::<T>() {
            assert(averaged(results@, (r.0@, r.1)));
        }
    }
    r
}

/// Lists that fit one model are aligned.
proof fn lemma_fit_aligned<T: Float>(a: Seq<Tensor<T>>, b: Seq<Tensor<T>>, m: Model<T>)
    requires
        moments_fit(a, m),
        moments_fit(b, m),
    ensures
        aligned(a, b),
{
    assert forall|k: int| 0 <= k < a.len() implies (#[trigger] a[k]).wf() && b[k].wf()
        && b[k].shape@ == a[k].shape@ by {
        assert(b[k].wf());
    }
}

/// What is aligned with a list that fits a model fits it too.
proof fn lemma_aligned_fit<T: Float>(a: Seq<Tensor<T>>, b: Seq<Tensor<T>>, m: Model<T>)
    requires
        moments_fit(a, m),
        aligned(a, b),
    ensures
        moments_fit(b, m),
{
    assert forall|k: int| 0 <= k < b.len() implies (#[trigger] b[k]).wf() && b[k].shape@ == items(
        m.parts(),
    )[k].shape@ by {
        assert(a[k].wf());
    }
}

/// How many windows an evaluation looks at.
pub open spec fn eval_count(n_windows: nat, n_samples: usize) -> nat {
    if n_samples < n_windows {
        n_samples as nat
    } else {
        n_windows
    }
}

/// How far apart the windows of an evaluation lie.
pub open spec fn eval_stride(n_windows: nat, n: nat) -> nat {
    let s = n_windows / n;
    if s < 1 {
        1
    } else {
        s
    }
}

/// The place of window `k` of an evaluation over `n_samples` of `n_windows`.
pub open spec fn eval_place(n_windows: nat, n_samples: usize, k: nat) -> int {
    (k * eval_stride(n_windows, eval_count(n_windows, n_samples))) as int
}

/// The windows that an evaluation looks at are known at these sizes.
pub open spec fn sampled_known(
    c: ModelConfig,
    ws: Seq<(Vec<usize>, Vec<usize>)>,
    n_samples: usize,
) -> bool {
    ws.len() > 0 && n_samples > 0 ==> forall|k: nat|
        k < eval_count(ws.len(), n_samples) ==> pair_known(
            c,
            ws[#[trigger] eval_place(ws.len(), n_samples, k)],
        )
}

/// The losses of the first `k` windows of an evaluation, added up.
pub open spec fn eval_sum<T: Float>(
    m: Model<T>,
    ws: Seq<(Vec<usize>, Vec<usize>)>,
    stride: nat,
    k: nat,
) -> T
    decreases k,
{
    if k == 0 {
        fzero::<T>()
    } else {
        let w = ws[((k - 1) * stride) as int];
        fadd(eval_sum(m, ws, stride, (k - 1) as nat), window_loss(m, w.0@, w.1@))
    }
}

/// The mean loss and the perplexity over evenly spaced windows; NaN twice where
/// there is no window or none is asked for.
pub open spec fn perplexity_of<T: Float>(
    m: Model<T>,
    ws: Seq<(Vec<usize>, Vec<usize>)>,
    n_samples: usize,
) -> (T, T) {
    if ws.len() == 0 || n_samples == 0 {
        (fbits::<T>(NAN), fbits::<T>(NAN))
    } else {
        let n = eval_count(ws.len(), n_samples);
        let mean = fdiv(eval_sum(m, ws, eval_stride(ws.len(), n), n), fcount::<T>(n as usize));
        (mean, fexp(mean))
    }
}

/// The mean loss and the perplexity over evenly spaced held-out windows.
pub fn eval_val_perplexity<T: Float>(
    model: &Model<T>,
    val_windows: &Vec<(Vec<usize>, Vec<usize>)>,
    n_samples: usize,
) -> (r: (T, T))
    requires
        model.shaped(),
        sampled_known(model.config, val_windows@, n_samples),
    ensures
        deterministic::<T>() ==> r == perplexity_of(*model, val_windows@, n_samples),
{
    if val_windows.len() == 0 || n_samples == 0 {
        return (T::from_bits(NAN), T::from_bits(NAN));
    }
    let n: usize = if n_samples < val_windows.len() {
        n_samples
    } else {
        val_windows.len()
    };
    let whole: usize = val_windows.len() / n;
    let stride: usize = if whole < 1 {
        1
    } else {
        whole
    };
    let mut total = T::from_bits(ZERO);
    let mut i: usize = 0;
    proof {
        let (len, d) = (val_windows@.len() as int, n as int);
        vstd::arithmetic::div_mod::lemma_fundamental_div_mod(len, d);
        assert(d * (len / d) == (len / d) * d) by (nonlinear_arith);
        assert(n * stride <= val_windows@.len()) by {
            if whole < 1 {
                assert(n * 1 == n);
            } else {
                assert(n * stride == stride * n) by (nonlinear_arith);
            }
        }
    }
    while i < n
        invariant
            i <= n,
            n <= val_windows@.len(),
            stride >= 1,
            n * stride <= val_windows@.len(),
            val_windows@.len() <= usize::MAX,
            model.shaped(),
            n == eval_count(val_windows@.len(), n_samples),
            stride == eval_stride(val_windows@.len(), n as nat),
            n_samples > 0 && val_windows@.len() > 0,
            sampled_known(model.config, val_windows@, n_samples),
            deterministic::<T>() ==> total == eval_sum(
                *model,
                val_windows@,
                stride as nat,
                i as nat,
            ),
        decreases n - i,
    {
        proof {
            assert(i * stride + stride <= n * stride) by (nonlinear_arith)
                requires
                    i + 1 <= n,
                    stride >= 1,
            ;
            assert(0 <= i * stride) by (nonlinear_arith)
                requires
                    i >= 0,
                    stride >= 1,
            ;
            assert(eval_place(val_windows@.len(), n_samples, i as nat) == i * stride);
            assert(window_ok(
                *model,
                val_windows@[i * stride].0@,
                val_windows@[i * stride].1@,
            ));
        }
        let w = &val_windows[i * stride];
        total = total.plus(eval_loss(model, w.0.as_slice(), w.1.as_slice()));
        i += 1;
    }
    let mean = total.over(T::from_count(n));
    (mean, mean.exp())
}

/// Clips the gradients, sets the learning rate and takes the optimiser's step;
/// gives the norm before clipping.
pub fn apply_step<T: Float>(
    model: &mut Model<T>,
    opt: &mut AdamW<T>,
    grads: &mut Vec<Tensor<T>>,
    lr: T,
    grad_clip: T,
) -> (r: T)
    requires
        old(model).wf(),
        old(opt).fits(*old(model)),
        moments_fit(old(grads)@, *old(model)),
        items(old(model).parts()).len() <= usize::MAX,
        old(opt).state.step_count < u32::MAX,
    ensures
        final(model).wf(),
        final(model).config == old(model).config,
        same_form(final(model).parts(), old(model).parts()),
        items(final(model).parts()).len() == items(old(model).parts()).len(),
        forall|k: int|
            0 <= k < items(old(model).parts()).len() ==> (#[trigger] items(
                final(model).parts(),
            )[k]).shape@ == items(old(model).parts())[k].shape@,
        final(opt).fits(*final(model)),
        final(opt).state.step_count == old(opt).state.step_count + 1,
        final(opt).lr == lr,
        final(opt).beta1 == old(opt).beta1,
        final(opt).beta2 == old(opt).beta2,
        final(opt).eps == old(opt).eps,
        final(opt).weight_decay == old(opt).weight_decay,
        final(grads)@.len() == old(grads)@.len(),
        deterministic::<T>() ==> {
            &&& r == norm_of(arrays(old(grads)@))
            &&& forall|k: int|
                0 <= k < old(grads)@.len() ==> (#[trigger] final(grads)@[k])@ == clipped_of(
                    arrays(old(grads)@),
                    grad_clip,
                    k,
                )
            &&& optimised(
                *old(model),
                AdamW { lr, ..*old(opt) },
                arrays(old(grads)@),
                grad_clip,
                *final(model),
                *final(opt),
            )
        },
{
    let ghost start = grads@;
    let norm = clip_grad_norm_tensors(grads, grad_clip);
    proof {
        assert(moments_fit(grads@, *model)) by {
            assert forall|k: int| 0 <= k < grads@.len() implies (#[trigger] grads@[k]).wf()
                && grads@[k].shape@ == items(model.parts())[k].shape@ by {
                assert(start[k].wf());
            }
        }
    }
    opt.lr = lr;
    let ghost (m0, o0) = (*model, *opt);
    opt.step_with_grads(model, grads);
    proof {
        if deterministic::<T>() {
            assert forall|k: int, i: int|
                0 <= k < start.len() && 0 <= i < clipped_of(
                    arrays(start),
                    grad_clip,
                    k,
                ).data.len() implies step_at(
                o0,
                m0,
                *opt,
                *model,
                #[trigger] clipped_of(arrays(start), grad_clip, k).data[i],
                k,
                i,
            ) by {
                assert(grads@[k]@ == clipped_of(arrays(start), grad_clip, k));
                assert(grads@[k].data@[i] == clipped_of(arrays(start), grad_clip, k).data[i]);
            }
        }
    }
    norm
}

/// Whether a line is due after step `step` of `n`: after every so many and after the last.
pub fn line_due(step: usize, n: usize, every: usize) -> (r: bool)
    requires
        every > 0,
        step < n,
    ensures
        r == (step % every == 0 || step + 1 == n),
{
    step % every == 0 || step == n - 1
}

/// The first loss of a run and the lowest so far.
pub struct DemoLosses<T> {
    pub first: T,
    pub lowest: T,
}

impl<T: Float> DemoLosses<T> {
    /// Before the first step: no loss, and nothing as low as any.
    pub fn new() -> (r: Self)
        ensures
            deterministic::<T>() ==> r.first == fbits::<T>(NAN) && r.lowest == fbits::<T>(POS_INFINITY),
    {
        DemoLosses { first: T::from_bits(NAN), lowest: T::from_bits(POS_INFINITY) }
    }

    /// Whether the lowest loss is below seven tenths of the first.
    pub fn fell(&self) -> (r: bool)
        ensures
            deterministic::<T>() ==> r == flt(
                self.lowest,
                fmul(self.first, fbits::<T>(SEVEN_TENTHS)),
            ),
    {
        self.lowest.below(self.first.times(T::from_bits(SEVEN_TENTHS)))
    }
}

/// One step of a short run on gradients that were computed elsewhere: the loss is taken
/// in and the weights follow the clipped gradients. Says whether a line is due.
pub fn demo_step<T: Float>(
    model: &mut Model<T>,
    opt: &mut AdamW<T>,
    grads: &mut Vec<Tensor<T>>,
    loss: T,
    seen: &mut DemoLosses<T>,
    lr: T,
    clip: T,
    step: usize,
    n: usize,
) -> (due: bool)
    requires
        old(model).wf(),
        old(opt).fits(*old(model)),
        moments_fit(old(grads)@, *old(model)),
        items(old(model).parts()).len() <= usize::MAX,
        old(opt).state.step_count < u32::MAX,
        step < n,
    ensures
        due == (step % 10 == 0 || step + 1 == n),
        final(seen).first == if step == 0 {
            loss
        } else {
            old(seen).first
        },
        final(seen).lowest == loss || final(seen).lowest == old(seen).lowest,
        deterministic::<T>() ==> final(seen).lowest == if flt(loss, old(seen).lowest) {
            loss
        } else {
            old(seen).lowest
        },
        final(model).wf(),
        final(model).config == old(model).config,
        same_form(final(model).parts(), old(model).parts()),
        items(final(model).parts()).len() == items(old(model).parts()).len(),
        forall|k: int|
            0 <= k < items(old(model).parts()).len() ==> (#[trigger] items(
                final(model).parts(),
            )[k]).shape@ == items(old(model).parts())[k].shape@,
        final(opt).fits(*final(model)),
        final(opt).state.step_count == old(opt).state.step_count + 1,
        final(opt).lr == lr,
        final(opt).beta1 == old(opt).beta1,
        final(opt).beta2 == old(opt).beta2,
        final(opt).eps == old(opt).eps,
        final(opt).weight_decay == old(opt).weight_decay,
        final(grads)@.len() == old(grads)@.len(),
        deterministic::<T>() ==> {
            &&& forall|k: int|
                0 <= k < old(grads)@.len() ==> (#[trigger] final(grads)@[k])@ == clipped_of(
                    arrays(old(grads)@),
                    clip,
                    k,
                )
            &&& optimised(
                *old(model),
                AdamW { lr, ..*old(opt) },
                arrays(old(grads)@),
                clip,
                *final(model),
                *final(opt),
            )
        },
{
    if step == 0 {
        seen.first = loss;
    }
    if loss.below(seen.lowest) {
        seen.lowest = loss;
    }
    let norm = apply_step(model, opt, grads, lr, clip);
    line_due(step, n, DEMO_LINE_EVERY)
}

/// Every weight and its moments have taken in the clipped gradient.
pub open spec fn optimised<T: Float>(
    m0: Model<T>,
    o0: AdamW<T>,
    grads: Seq<Array<T>>,
    limit: T,
    m1: Model<T>,
    o1: AdamW<T>,
) -> bool {
    forall|k: int, i: int|
        0 <= k < grads.len() && 0 <= i < clipped_of(grads, limit, k).data.len() ==> step_at(
            o0,
            m0,
            o1,
            m1,
            #[trigger] clipped_of(grads, limit, k).data[i],
            k,
            i,
        )
}

/// Gradient `k` after all are scaled down together where their norm is above a limit.
pub open spec fn clipped_of<T: Float>(s: Seq<Array<T>>, limit: T, k: int) -> Array<T> {
    if flt(limit, norm_of(s)) {
        crate::tensor::scale_of(s[k], crate::optim::clip_factor(norm_of(s), limit))
    } else {
        s[k]
    }
}

} // verus!
