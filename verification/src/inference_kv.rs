//! Autoregressive generation with cached keys and values.
//!
//! Each head keeps the rotated keys and the values of the tokens seen so far,
//! so a step works on one row only. Once the longest context is reached it slides:
//! the caches are filled afresh from the last ids.
use crate::agreement::{drift_free, law_cache_changes_nothing};
use crate::attention::score_scale;
use crate::bitlinear::{
    absmax, dequantised_weights, int8_row, max_abs, quantise_row, ternary_weights,
};
use crate::data::{unit_of, Lcg, Vocab};
use crate::float::{
    deterministic, dot, fadd, fbits, fdiv, fdot, feq, fmul, fsum, fzero, sum, Float, INT8_MAX,
    ONE, ZERO,
};
use crate::inference::{
    can_generate, choice_of, choose_token, context_of, divide_row, exps_of_row, generated,
    state_after, states_after, SamplingMode,
};
use crate::layout::{BlockOf, HeadOf, ModelOf};
use crate::model::{
    block_shaped, head_shaped, view_of, AttentionHead, BlockMasters, Model, ModelConfig,
};
use crate::ops::{
    ids_below, rmsnorm_line, rmsnorm_row, rope_line, rope_row, shifted_exps, sigmoid, silu_line,
};
use crate::tensor::{copy_slice, lemma_row_end, lemma_volume2, repeat, transpose_of, Array, Tensor};
use vstd::prelude::*;
use vstd::slice::slice_subrange;

verus! {

/// The keys and values that one head has seen, one row for each token.
pub struct HeadKVCache<T> {
    pub k: Tensor<T>,
    pub v: Tensor<T>,
}

/// The caches of the heads of a block.
pub struct BlockKVCache<T> {
    pub heads: Vec<HeadKVCache<T>>,
}

/// The caches of a model, and how many tokens it has seen.
pub struct KVCache<T> {
    pub blocks: Vec<BlockKVCache<T>>,
    pub seq_pos: usize,
}

/// Appends a row to a matrix.
fn append_row_inplace<T: Float>(cache: &mut Tensor<T>, row: &[T])
    requires
        old(cache).wf(),
        old(cache).shape@.len() == 2,
        old(cache).shape@[1] == row@.len(),
        old(cache).shape@[0] < usize::MAX,
    ensures
        final(cache)@.data == old(cache)@.data + row@,
        final(cache)@.dims == seq![(old(cache).shape@[0] + 1) as usize, old(cache).shape@[1]],
        final(cache).wf(),
{
    let ghost before = *cache;
    proof {
        lemma_volume2(cache.shape@);
    }
    let mut more = copy_slice(row);
    cache.data.append(&mut more);
    let rows: usize = cache.shape[0];
    cache.shape.set(0, rows + 1);
    proof {
        assert(cache.shape@ =~= seq![(before.shape@[0] + 1) as usize, before.shape@[1]]);
        lemma_volume2(cache.shape@);
        lemma_row_end(before.shape@[0] as int, before.shape@[0] + 1, row@.len() as int);
    }
}

/// The keys and values that a head has seen, as matrices.
#[verifier::ext_equal]
pub struct HeadRows<T> {
    pub k: Array<T>,
    pub v: Array<T>,
}

impl<T> View for HeadKVCache<T> {
    type V = HeadRows<T>;

    open spec fn view(&self) -> HeadRows<T> {
        HeadRows { k: self.k@, v: self.v@ }
    }
}

impl<T> View for BlockKVCache<T> {
    type V = Seq<HeadRows<T>>;

    open spec fn view(&self) -> Seq<HeadRows<T>> {
        Seq::new(self.heads@.len(), |i: int| self.heads@[i]@)
    }
}

impl<T> View for KVCache<T> {
    type V = Seq<Seq<HeadRows<T>>>;

    open spec fn view(&self) -> Seq<Seq<HeadRows<T>>> {
        Seq::new(self.blocks@.len(), |j: int| self.blocks@[j]@)
    }
}

/// The cache of a head holds `t` keys and `t` values of `d` columns.
pub open spec fn head_cache_ok<T: Float>(c: HeadKVCache<T>, t: int, d: usize) -> bool {
    &&& c.k.wf() && c.k.shape@.len() == 2 && c.k.shape@[0] == t && c.k.shape@[1] == d
    &&& c.v.wf() && c.v.shape@.len() == 2 && c.v.shape@[0] == t && c.v.shape@[1] == d
}

/// There is a cache for each of `n` heads, of `t` rows and `d` columns.
pub open spec fn block_cache_ok<T: Float>(c: BlockKVCache<T>, n: nat, t: int, d: usize) -> bool {
    &&& c.heads@.len() == n
    &&& forall|i: int| 0 <= i < n ==> head_cache_ok(#[trigger] c.heads@[i], t, d)
}

impl<T: Float> KVCache<T> {
    /// There is a cache of `t` rows for each head of the model.
    pub open spec fn fits(self, m: Model<T>, t: int) -> bool {
        &&& self.blocks@.len() == m.blocks@.len()
        &&& forall|j: int|
            0 <= j < self.blocks@.len() ==> block_cache_ok(
                #[trigger] self.blocks@[j],
                m.blocks@[j].heads@.len(),
                t,
                m.config.head_dim,
            )
    }
}

/// A matrix of no rows and `d` columns.
pub open spec fn no_rows<T>(d: usize) -> Array<T> {
    Array { data: seq![], dims: seq![0usize, d] }
}

/// A matrix with one more row.
pub open spec fn grown<T>(a: Array<T>, row: Seq<T>) -> Array<T> {
    Array { data: a.data + row, dims: seq![(a.dims[0] + 1) as usize, a.dims[1]] }
}

/// The empty caches of a model.
pub open spec fn empty_rows<T: Float>(m: ModelOf<Array<T>>, d: usize) -> Seq<Seq<HeadRows<T>>> {
    Seq::new(
        m.blocks.len(),
        |j: int|
            Seq::new(
                m.blocks[j].heads.len(),
                |i: int| HeadRows { k: no_rows(d), v: no_rows(d) },
            ),
    )
}

/// A row of 8-bit activations multiplied back by its scale; zeros for a row of zeros.
pub open spec fn acts_row<T: Float>(s: Seq<T>) -> Seq<T> {
    let a = absmax(s);
    if feq(a, fzero::<T>()) {
        Seq::new(s.len(), |k: int| fzero::<T>())
    } else {
        Seq::new(s.len(), |k: int| fmul(int8_row(s)[k], fdiv(a, fbits::<T>(INT8_MAX))))
    }
}

/// A row times a matrix.
pub open spec fn row_times<T: Float>(x: Seq<T>, w: Array<T>) -> Seq<T> {
    Seq::new(w.dims[1] as nat, |j: int| fdot(x, w.col(j as nat), x.len()))
}

/// The softmax of a row, each exponential divided by the sum.
pub open spec fn soft_row<T: Float>(s: Seq<T>) -> Seq<T> {
    Seq::new(s.len(), |k: int| fdiv(shifted_exps(s)[k], fsum(shifted_exps(s))))
}

/// The sum of two rows, item by item.
pub open spec fn row_plus<T: Float>(a: Seq<T>, b: Seq<T>) -> Seq<T> {
    Seq::new(a.len(), |k: int| fadd(a[k], b[k]))
}

/// The caches of a head after it has seen one more row of activations.
pub open spec fn seen<T: Float>(
    xe: Seq<T>,
    h: HeadOf<Array<T>>,
    kv: HeadRows<T>,
    pos: usize,
) -> HeadRows<T> {
    HeadRows {
        k: grown(kv.k, rope_row(row_times(xe, ternary_weights(h.w_k)), pos)),
        v: grown(kv.v, row_times(xe, ternary_weights(h.w_v))),
    }
}

/// How much each cached row counts for the current one.
pub open spec fn cached_weights<T: Float>(q: Seq<T>, k: Array<T>, scale: T) -> Seq<T> {
    soft_row(
        Seq::new(
            k.dims[0] as nat,
            |t: int| fmul(fdot(q, k.row(t as nat), q.len()), scale),
        ),
    )
}

/// The cached values mixed by the weights of the current row.
pub open spec fn cached_mix<T: Float>(w: Seq<T>, v: Array<T>) -> Seq<T> {
    Seq::new(v.dims[1] as nat, |d: int| fdot(w, v.col(d as nat), v.dims[0] as nat))
}

/// What a head gives for the current row, whose key and value the caches hold last.
pub open spec fn head_row<T: Float>(
    xe: Seq<T>,
    h: HeadOf<Array<T>>,
    kv: HeadRows<T>,
    pos: usize,
    scale: T,
) -> Seq<T> {
    let q = rope_row(row_times(xe, ternary_weights(h.w_q)), pos);
    row_times(acts_row(cached_mix(cached_weights(q, kv.k, scale), kv.v)), ternary_weights(h.w_o))
}

/// The sum of what the first `n` heads give, from the left and starting at zeros.
pub open spec fn heads_row<T: Float>(
    xe: Seq<T>,
    hs: Seq<HeadOf<Array<T>>>,
    kvs: Seq<HeadRows<T>>,
    pos: usize,
    scale: T,
    hidden: usize,
    n: nat,
) -> Seq<T>
    decreases n,
{
    if n == 0 {
        Seq::new(hidden as nat, |k: int| fzero::<T>())
    } else {
        row_plus(
            heads_row(xe, hs, kvs, pos, scale, hidden, (n - 1) as nat),
            head_row(xe, hs[n - 1], kvs[n - 1], pos, scale),
        )
    }
}

/// The caches of a block after it has seen row `x`.
pub open spec fn block_seen<T: Float>(
    x: Seq<T>,
    b: BlockOf<Array<T>>,
    kvs: Seq<HeadRows<T>>,
    pos: usize,
) -> Seq<HeadRows<T>> {
    Seq::new(b.heads.len(), |i: int| seen(acts_row(rmsnorm_row(x)), b.heads[i], kvs[i], pos))
}

/// What a feed-forward layer gives for a row.
pub open spec fn ffn_row<T: Float>(x: Seq<T>, b: BlockOf<Array<T>>) -> Seq<T> {
    let xe = acts_row(rmsnorm_row(x));
    let gate = row_times(xe, ternary_weights(b.gate));
    let up = row_times(xe, ternary_weights(b.up));
    let h = Seq::new(gate.len(), |k: int| fmul(fmul(gate[k], sigmoid(gate[k])), up[k]));
    row_times(acts_row(h), ternary_weights(b.down))
}

/// What a block gives for row `x`, whose keys and values the caches hold last.
pub open spec fn block_row<T: Float>(
    x: Seq<T>,
    b: BlockOf<Array<T>>,
    kvs: Seq<HeadRows<T>>,
    pos: usize,
    scale: T,
    hidden: usize,
) -> Seq<T> {
    let x1 = row_plus(
        x,
        heads_row(
            acts_row(rmsnorm_row(x)),
            b.heads,
            kvs,
            pos,
            scale,
            hidden,
            b.heads.len(),
        ),
    );
    row_plus(x1, ffn_row(x1, b))
}

/// The row of a token after `j` blocks.
pub open spec fn row_after<T: Float>(
    m: ModelOf<Array<T>>,
    c: ModelConfig,
    kv: Seq<Seq<HeadRows<T>>>,
    token: usize,
    pos: usize,
    j: nat,
) -> Seq<T>
    decreases j,
{
    if j == 0 {
        m.embed.row(token as nat)
    } else {
        let x = row_after(m, c, kv, token, pos, (j - 1) as nat);
        block_row(
            x,
            m.blocks[j - 1],
            block_seen(x, m.blocks[j - 1], kv[j - 1], pos),
            pos,
            score_scale(c.head_dim),
            c.hidden_dim,
        )
    }
}

/// The caches of a model after it has seen a token.
pub open spec fn rows_after<T: Float>(
    m: ModelOf<Array<T>>,
    c: ModelConfig,
    kv: Seq<Seq<HeadRows<T>>>,
    token: usize,
    pos: usize,
) -> Seq<Seq<HeadRows<T>>> {
    Seq::new(
        m.blocks.len(),
        |j: int|
            block_seen(row_after(m, c, kv, token, pos, j as nat), m.blocks[j], kv[j], pos),
    )
}

/// The logits after a token.
pub open spec fn logits_after<T: Float>(
    m: ModelOf<Array<T>>,
    c: ModelConfig,
    kv: Seq<Seq<HeadRows<T>>>,
    token: usize,
    pos: usize,
) -> Seq<T> {
    row_times(
        acts_row(rmsnorm_row(row_after(m, c, kv, token, pos, m.blocks.len()))),
        ternary_weights(transpose_of(m.embed)),
    )
}

impl<T: Float> KVCache<T> {
    /// Empty caches for a model.
    pub fn new(model: &Model<T>) -> (r: Self)
        ensures
            r.seq_pos == 0,
            r.fits(*model, 0),
            r@ == empty_rows(model@, model.config.head_dim),
    {
        let d: usize = model.config.head_dim;
        let mut blocks: Vec<BlockKVCache<T>> = Vec::new();
        let mut j: usize = 0;
        while j < model.blocks.len()
            invariant
                j <= model.blocks@.len(),
                d == model.config.head_dim,
                blocks@.len() == j,
                forall|q: int|
                    0 <= q < j ==> {
                        &&& block_cache_ok(
                            #[trigger] blocks@[q],
                            model.blocks@[q].heads@.len(),
                            0,
                            d,
                        )
                        &&& blocks@[q]@ == empty_rows(model@, d)[q]
                    },
            decreases model.blocks@.len() - j,
        {
            let n: usize = model.blocks[j].heads.len();
            let mut heads: Vec<HeadKVCache<T>> = Vec::new();
            while heads.len() < n
                invariant
                    heads@.len() <= n,
                    forall|i: int|
                        0 <= i < heads@.len() ==> {
                            &&& head_cache_ok(#[trigger] heads@[i], 0, d)
                            &&& heads@[i]@ == (HeadRows { k: no_rows::<T>(d), v: no_rows::<T>(d) })
                        },
                decreases n - heads@.len(),
            {
                let head = HeadKVCache { k: empty_matrix(d), v: empty_matrix(d) };
                heads.push(head);
            }
            let block = BlockKVCache { heads };
            proof {
                assert(model@.blocks[j as int].heads.len() == n);
                assert(block@ =~= empty_rows(model@, d)[j as int]);
            }
            blocks.push(block);
            j += 1;
        }
        let r = KVCache { blocks, seq_pos: 0 };
        proof {
            assert(r@ =~= empty_rows(model@, d));
        }
        r
    }
}

/// A matrix of no rows and `d` columns.
fn empty_matrix<T: Float>(d: usize) -> (r: Tensor<T>)
    ensures
        r@ == no_rows::<T>(d),
        r.wf(),
        r.shape@.len() == 2,
        r.shape@[0] == 0,
        r.shape@[1] == d,
{
    let mut shape: Vec<usize> = Vec::new();
    shape.push(0);
    shape.push(d);
    let r = Tensor { data: Vec::new(), shape };
    proof {
        lemma_volume2(r.shape@);
        assert(0 * d == 0);
        assert(r@ =~= no_rows::<T>(d));
    }
    r
}

/// A row of 8-bit activations multiplied back by its scale; zeros for a row of zeros.
fn quantise_acts_row<T: Float>(x: &[T]) -> (r: Vec<T>)
    ensures
        r@.len() == x@.len(),
        deterministic::<T>() ==> r@ == acts_row(x@),
{
    let a = max_abs(x);
    let q = quantise_row(x, a);
    let zero = T::from_bits(ZERO);
    if a.same(zero) {
        let r = repeat(zero, x.len());
        proof {
            if deterministic::<T>() {
                assert(r@ =~= acts_row(x@));
            }
        }
        return r;
    }
    let scale = a.over(T::from_bits(INT8_MAX));
    let r = crate::ops::scale_row(q.as_slice(), scale);
    proof {
        if deterministic::<T>() {
            assert(r@ =~= acts_row(x@));
        }
    }
    r
}

/// A row times a matrix.
fn matvec<T: Float>(x: &[T], w: &Tensor<T>) -> (r: Vec<T>)
    requires
        w.wf(),
        w.shape@.len() == 2,
        w.shape@[0] == x@.len(),
    ensures
        r@.len() == w.shape@[1],
        deterministic::<T>() ==> r@ == row_times(x@, w@),
{
    let n: usize = w.shape[1];
    let mut out: Vec<T> = Vec::new();
    while out.len() < n
        invariant
            out@.len() <= n,
            w.wf(),
            w.shape@.len() == 2,
            n == w.shape@[1],
            w.shape@[0] == x@.len(),
            deterministic::<T>() ==> forall|j: int|
                0 <= j < out@.len() ==> out@[j] == fdot(x@, w@.col(j as nat), x@.len()),
        decreases n - out@.len(),
    {
        let col = w.column(out.len());
        out.push(dot(x, col.as_slice()));
    }
    proof {
        if deterministic::<T>() {
            assert(out@ =~= row_times(x@, w@));
        }
    }
    out
}

/// The sum of two rows, item by item.
fn add_rows<T: Float>(a: &[T], b: &[T]) -> (r: Vec<T>)
    requires
        a@.len() == b@.len(),
    ensures
        r@.len() == a@.len(),
        deterministic::<T>() ==> r@ == row_plus(a@, b@),
{
    let mut out: Vec<T> = Vec::new();
    let mut i: usize = 0;
    while i < a.len()
        invariant
            i <= a@.len(),
            a@.len() == b@.len(),
            out@.len() == i,
            deterministic::<T>() ==> forall|k: int| 0 <= k < i ==> out@[k] == fadd(a@[k], b@[k]),
        decreases a@.len() - i,
    {
        out.push(a[i].plus(b[i]));
        i += 1;
    }
    proof {
        if deterministic::<T>() {
            assert(out@ =~= row_plus(a@, b@));
        }
    }
    out
}

/// The softmax of a row, each exponential divided by the sum.
pub fn softmax_1d<T: Float>(scores: &[T]) -> (r: Vec<T>)
    ensures
        r@.len() == scores@.len(),
        deterministic::<T>() ==> r@ == soft_row(scores@),
{
    let exps = exps_of_row(scores);
    let total = sum(exps.as_slice());
    let r = divide_row(exps.as_slice(), total);
    proof {
        if deterministic::<T>() {
            assert(r@ =~= soft_row(scores@));
        }
    }
    r
}

/// A row times a ternary matrix.
fn linear_row<T: Float>(x: &[T], w: &Tensor<T>) -> (r: Vec<T>)
    requires
        w.wf(),
        w.shape@.len() == 2,
        w.shape@[0] == x@.len(),
    ensures
        r@.len() == w.shape@[1],
        deterministic::<T>() ==> r@ == row_times(x@, ternary_weights(w@)),
{
    let q = dequantised_weights(w);
    matvec(x, &q)
}

/// How much each cached row counts for the current one.
fn weigh_cached<T: Float>(q: &[T], k: &Tensor<T>, scale: T) -> (r: Vec<T>)
    requires
        k.wf(),
        k.shape@.len() == 2,
        k.shape@[1] == q@.len(),
    ensures
        r@.len() == k.shape@[0],
        deterministic::<T>() ==> r@ == cached_weights(q@, k@, scale),
{
    let t: usize = k.shape[0];
    let mut scores: Vec<T> = Vec::new();
    while scores.len() < t
        invariant
            scores@.len() <= t,
            k.wf(),
            k.shape@.len() == 2,
            t == k.shape@[0],
            k.shape@[1] == q@.len(),
            deterministic::<T>() ==> forall|i: int|
                0 <= i < scores@.len() ==> scores@[i] == fmul(
                    fdot(q@, k@.row(i as nat), q@.len()),
                    scale,
                ),
        decreases t - scores@.len(),
    {
        let row = k.row(scores.len());
        scores.push(dot(q, row).times(scale));
    }
    proof {
        if deterministic::<T>() {
            assert(scores@ =~= Seq::new(
                k@.dims[0] as nat,
                |t: int| fmul(fdot(q@, k@.row(t as nat), q@.len()), scale),
            ));
        }
    }
    softmax_1d(scores.as_slice())
}

/// The cached values mixed by the weights of the current row.
fn mix_cached<T: Float>(w: &[T], v: &Tensor<T>) -> (r: Vec<T>)
    requires
        v.wf(),
        v.shape@.len() == 2,
        v.shape@[0] == w@.len(),
    ensures
        r@.len() == v.shape@[1],
        deterministic::<T>() ==> r@ == cached_mix(w@, v@),
{
    let n: usize = v.shape[1];
    let mut out: Vec<T> = Vec::new();
    while out.len() < n
        invariant
            out@.len() <= n,
            v.wf(),
            v.shape@.len() == 2,
            n == v.shape@[1],
            v.shape@[0] == w@.len(),
            deterministic::<T>() ==> forall|d: int|
                0 <= d < out@.len() ==> out@[d] == fdot(
                    w@,
                    v@.col(d as nat),
                    v@.dims[0] as nat,
                ),
        decreases n - out@.len(),
    {
        let col = v.column(out.len());
        out.push(dot(w, col.as_slice()));
    }
    proof {
        if deterministic::<T>() {
            assert(out@ =~= cached_mix(w@, v@));
        }
    }
    out
}

/// One row through a head: its key and value join the caches, and the cached
/// values are mixed and projected.
fn head_step<T: Float>(
    head: &AttentionHead<T>,
    cache: &mut HeadKVCache<T>,
    xe: &[T],
    position: usize,
    c: &ModelConfig,
) -> (r: Vec<T>)
    requires
        head_shaped(*head, *c),
        c.head_dim % 2 == 0,
        xe@.len() == c.hidden_dim,
        old(cache).k.shape@.len() == 2,
        old(cache).k.shape@[0] < usize::MAX,
        head_cache_ok(*old(cache), old(cache).k.shape@[0] as int, c.head_dim),
    ensures
        head_cache_ok(*final(cache), old(cache).k.shape@[0] + 1, c.head_dim),
        r@.len() == c.hidden_dim,
        deterministic::<T>() ==> {
            let h = crate::layout::map_head(head.parts(), view_of());
            &&& final(cache)@ == seen(xe@, h, old(cache)@, position)
            &&& r@ == head_row(
                xe@,
                h,
                final(cache)@,
                position,
                score_scale(c.head_dim),
            )
        },
{
    let scale = T::from_bits(ONE).over(T::from_count(c.head_dim).sqrt());
    let q0 = linear_row(xe, &head.w_q);
    let k0 = linear_row(xe, &head.w_k);
    let v = linear_row(xe, &head.w_v);
    let q = rope_line(q0.as_slice(), position);
    let k = rope_line(k0.as_slice(), position);
    append_row_inplace(&mut cache.k, k.as_slice());
    append_row_inplace(&mut cache.v, v.as_slice());
    let weights = weigh_cached(q.as_slice(), &cache.k, scale);
    let ctx = mix_cached(weights.as_slice(), &cache.v);
    let acts = quantise_acts_row(ctx.as_slice());
    let r = linear_row(acts.as_slice(), &head.w_o);
    proof {
        if deterministic::<T>() {
            let h = crate::layout::map_head(head.parts(), view_of());
            assert(cache@.k =~= grown(old(cache)@.k, k@));
            assert(cache@.v =~= grown(old(cache)@.v, v@));
            assert(cache@ =~= seen(xe@, h, old(cache)@, position));
        }
    }
    r
}

/// What a feed-forward layer gives for a row.
fn ffn_step<T: Float>(block: &BlockMasters<T>, x: &[T], c: &ModelConfig) -> (r: Vec<T>)
    requires
        block_shaped(*block, *c),
        x@.len() == c.hidden_dim,
    ensures
        r@.len() == c.hidden_dim,
        deterministic::<T>() ==> r@ == ffn_row(
            x@,
            crate::layout::map_block(block.parts(), view_of()),
        ),
{
    let normed = rmsnorm_line(x);
    let xe = quantise_acts_row(normed.as_slice());
    let gate0 = linear_row(xe.as_slice(), &block.ffn_gate_w);
    let gate = silu_line(gate0.as_slice());
    let up = linear_row(xe.as_slice(), &block.ffn_up_w);
    let mut h: Vec<T> = Vec::new();
    let mut i: usize = 0;
    while i < gate.len()
        invariant
            i <= gate@.len(),
            gate@.len() == up@.len(),
            h@.len() == i,
            deterministic::<T>() ==> forall|k: int|
                0 <= k < i ==> h@[k] == fmul(gate@[k], up@[k]),
        decreases gate@.len() - i,
    {
        h.push(gate[i].times(up[i]));
        i += 1;
    }
    proof {
        if deterministic::<T>() {
            assert(h@ =~= Seq::new(
                gate0@.len(),
                |k: int| fmul(fmul(gate0@[k], sigmoid(gate0@[k])), up@[k]),
            ));
        }
    }
    let he = quantise_acts_row(h.as_slice());
    linear_row(he.as_slice(), &block.ffn_down_w)
}

/// One row through a block.
fn block_step<T: Float>(
    block: &BlockMasters<T>,
    cache: &mut BlockKVCache<T>,
    x: &[T],
    position: usize,
    c: &ModelConfig,
    Ghost(t): Ghost<int>,
) -> (r: Vec<T>)
    requires
        block_shaped(*block, *c),
        c.head_dim % 2 == 0,
        x@.len() == c.hidden_dim,
        t < usize::MAX,
        block_cache_ok(*old(cache), block.heads@.len(), t, c.head_dim),
    ensures
        block_cache_ok(*final(cache), block.heads@.len(), t + 1, c.head_dim),
        r@.len() == c.hidden_dim,
        deterministic::<T>() ==> {
            let b = crate::layout::map_block(block.parts(), view_of());
            &&& final(cache)@ == block_seen(x@, b, old(cache)@, position)
            &&& r@ == block_row(
                x@,
                b,
                final(cache)@,
                position,
                score_scale(c.head_dim),
                c.hidden_dim,
            )
        },
{
    let ghost b = crate::layout::map_block(block.parts(), view_of::<T>());
    let ghost before = *cache;
    let ghost scale = score_scale::<T>(c.head_dim);
    let normed = rmsnorm_line(x);
    let xe = quantise_acts_row(normed.as_slice());
    let mut attn: Vec<T> = repeat(T::from_bits(ZERO), c.hidden_dim);
    let ghost target = block_seen(x@, b, before@, position);
    proof {
        if deterministic::<T>() {
            assert(attn@ =~= heads_row(
                xe@,
                b.heads,
                target,
                position,
                scale,
                c.hidden_dim,
                0,
            ));
        }
    }
    let mut i: usize = 0;
    while i < block.heads.len()
        invariant
            i <= block.heads@.len(),
            block_shaped(*block, *c),
            c.head_dim % 2 == 0,
            xe@.len() == c.hidden_dim,
            t < usize::MAX,
            b == crate::layout::map_block(block.parts(), view_of::<T>()),
            scale == score_scale::<T>(c.head_dim),
            target == block_seen(x@, b, before@, position),
            block_cache_ok(before, block.heads@.len(), t, c.head_dim),
            cache.heads@.len() == block.heads@.len(),
            forall|q: int| i <= q < cache.heads@.len() ==> cache.heads@[q] == before.heads@[q],
            forall|q: int|
                0 <= q < i ==> head_cache_ok(#[trigger] cache.heads@[q], t + 1, c.head_dim),
            attn@.len() == c.hidden_dim,
            deterministic::<T>() ==> {
                &&& xe@ == acts_row(rmsnorm_row(x@))
                &&& forall|q: int| 0 <= q < i ==> (#[trigger] cache.heads@[q])@ == target[q]
                &&& attn@ == heads_row(
                    xe@,
                    b.heads,
                    target,
                    position,
                    scale,
                    c.hidden_dim,
                    i as nat,
                )
            },
        decreases block.heads@.len() - i,
    {
        proof {
            assert(head_shaped(block.heads@[i as int], *c));
            assert(head_cache_ok(before.heads@[i as int], t, c.head_dim));
            assert(cache.heads@[i as int] == before.heads@[i as int]);
            assert(before@[i as int] == before.heads@[i as int]@);
        }
        let ghost held = cache.heads@;
        let out = head_step(
            &block.heads[i],
            &mut cache.heads[i],
            xe.as_slice(),
            position,
            c,
        );
        let sum = add_rows(attn.as_slice(), out.as_slice());
        attn = sum;
        proof {
            assert(cache.heads@ =~= held.update(i as int, cache.heads@[i as int]));
            assert(head_cache_ok(cache.heads@[i as int], t + 1, c.head_dim));
            if deterministic::<T>() {
                assert(b.heads[i as int] == crate::layout::map_head(
                    block.heads@[i as int].parts(),
                    view_of(),
                ));
                assert(cache.heads@[i as int]@ == target[i as int]);
            }
        }
        i += 1;
    }
    let x1 = add_rows(x, attn.as_slice());
    let fed = ffn_step(block, x1.as_slice(), c);
    let r = add_rows(x1.as_slice(), fed.as_slice());
    proof {
        if deterministic::<T>() {
            assert(cache@ =~= target);
        }
    }
    r
}

/// The logits after one more token at a position, with the caches extended by it.
pub fn forward_step<T: Float>(
    model: &Model<T>,
    token: usize,
    position: usize,
    cache: &mut KVCache<T>,
) -> (r: Vec<T>)
    requires
        model.shaped(),
        model.config.head_dim % 2 == 0,
        token < model.config.vocab_size,
        old(cache).seq_pos < usize::MAX,
        old(cache).fits(*model, old(cache).seq_pos as int),
    ensures
        final(cache).seq_pos == old(cache).seq_pos + 1,
        final(cache).fits(*model, final(cache).seq_pos as int),
        r@.len() == model.config.vocab_size,
        deterministic::<T>() ==> {
            &&& final(cache)@ == rows_after(
                model@,
                model.config,
                old(cache)@,
                token,
                position,
            )
            &&& r@ == logits_after(model@, model.config, old(cache)@, token, position)
        },
{
    let ghost before = *cache;
    let ghost t = cache.seq_pos as int;
    let ghost m = model@;
    let ghost target = rows_after(m, model.config, before@, token, position);
    let mut x = copy_slice(model.token_embed.row(token));
    let mut j: usize = 0;
    while j < model.blocks.len()
        invariant
            j <= model.blocks@.len(),
            model.shaped(),
            model.config.head_dim % 2 == 0,
            m == model@,
            t == before.seq_pos,
            t < usize::MAX,
            before.fits(*model, t),
            target == rows_after(m, model.config, before@, token, position),
            cache.seq_pos == t,
            cache.blocks@.len() == model.blocks@.len(),
            forall|q: int| j <= q < cache.blocks@.len() ==> cache.blocks@[q] == before.blocks@[q],
            forall|q: int|
                0 <= q < j ==> block_cache_ok(
                    #[trigger] cache.blocks@[q],
                    model.blocks@[q].heads@.len(),
                    t + 1,
                    model.config.head_dim,
                ),
            x@.len() == model.config.hidden_dim,
            deterministic::<T>() ==> {
                &&& x@ == row_after(m, model.config, before@, token, position, j as nat)
                &&& forall|q: int| 0 <= q < j ==> (#[trigger] cache.blocks@[q])@ == target[q]
            },
        decreases model.blocks@.len() - j,
    {
        proof {
            assert(block_shaped(model.blocks@[j as int], model.config));
            assert(block_cache_ok(
                before.blocks@[j as int],
                model.blocks@[j as int].heads@.len(),
                t,
                model.config.head_dim,
            ));
            assert(cache.blocks@[j as int] == before.blocks@[j as int]);
            assert(before@[j as int] == before.blocks@[j as int]@);
            assert(m.blocks[j as int] == crate::layout::map_block(
                model.blocks@[j as int].parts(),
                view_of(),
            ));
        }
        let ghost held = cache.blocks@;
        let next = block_step(
            &model.blocks[j],
            &mut cache.blocks[j],
            x.as_slice(),
            position,
            &model.config,
            Ghost(t),
        );
        x = next;
        proof {
            assert(cache.blocks@ =~= held.update(j as int, cache.blocks@[j as int]));
        }
        j += 1;
    }
    let normed = rmsnorm_line(x.as_slice());
    let xe = quantise_acts_row(normed.as_slice());
    let turned = model.token_embed.transpose_2d();
    let logits = linear_row(xe.as_slice(), &turned);
    cache.seq_pos = cache.seq_pos + 1;
    proof {
        if deterministic::<T>() {
            assert(cache@ =~= target);
        }
    }
    logits
}

/// Picks a token from logits: the largest, or a draw from the tokens that the mode
/// keeps. From no logits it is the first token.
pub fn sample_from_logits<T: Float>(
    logits: &[T],
    mode: &SamplingMode<T>,
    rng: &mut Lcg,
) -> (r: usize)
    requires
        *mode is Greedy || logits@.len() > 0,
    ensures
        logits@.len() > 0 ==> r < logits@.len(),
        logits@.len() == 0 ==> r == 0,
        final(rng).state == state_after(*mode, logits@.len(), old(rng).state),
        deterministic::<T>() && logits@.len() > 0 ==> r == choice_of(
            logits@,
            *mode,
            unit_of::<T>(final(rng).state),
        ),
{
    if logits.len() == 0 {
        return 0;
    }
    choose_token(logits, *mode, rng)
}

/// The caches after the first `n` ids.
pub open spec fn fed<T: Float>(
    m: ModelOf<Array<T>>,
    c: ModelConfig,
    ids: Seq<usize>,
    n: nat,
) -> Seq<Seq<HeadRows<T>>>
    decreases n,
{
    if n == 0 {
        empty_rows(m, c.head_dim)
    } else {
        rows_after(
            m,
            c,
            fed(m, c, ids, (n - 1) as nat),
            ids[n - 1],
            (n - 1) as usize,
        )
    }
}

/// The logits after all ids; none where there are none.
pub open spec fn fed_logits<T: Float>(
    m: ModelOf<Array<T>>,
    c: ModelConfig,
    ids: Seq<usize>,
) -> Seq<T> {
    if ids.len() == 0 {
        seq![]
    } else {
        let n = (ids.len() - 1) as nat;
        logits_after(m, c, fed(m, c, ids, n), ids[n as int], n as usize)
    }
}

/// The token that follows `ids`: the first of all where there are none, else what the
/// mode picks after the ids that the model sees.
pub open spec fn cached_next<T: Float>(
    m: ModelOf<Array<T>>,
    c: ModelConfig,
    ids: Seq<usize>,
    mode: SamplingMode<T>,
    target: T,
) -> usize {
    if ids.len() == 0 {
        0
    } else {
        let logits = fed_logits(m, c, context_of(ids, c.max_seq_len as nat));
        choice_of(logits, mode, target) as usize
    }
}

/// The ids after `n` more have been picked, and the generator's state then.
pub open spec fn cached_generated<T: Float>(
    m: ModelOf<Array<T>>,
    c: ModelConfig,
    ids: Seq<usize>,
    mode: SamplingMode<T>,
    state: u64,
    n: nat,
) -> (Seq<usize>, u64)
    decreases n,
{
    if n == 0 {
        (ids, state)
    } else {
        let (before, s) = cached_generated(m, c, ids, mode, state, (n - 1) as nat);
        let t = state_after(mode, c.vocab_size as nat, s);
        (before.push(cached_next(m, c, before, mode, unit_of::<T>(t))), t)
    }
}

/// The first ids decide the caches after them.
pub proof fn lemma_fed_same<T: Float>(
    m: ModelOf<Array<T>>,
    c: ModelConfig,
    a: Seq<usize>,
    b: Seq<usize>,
    n: nat,
)
    requires
        n <= a.len(),
        n <= b.len(),
        forall|i: int| 0 <= i < n ==> a[i] == b[i],
    ensures
        fed(m, c, a, n) == fed(m, c, b, n),
    decreases n,
{
    if n > 0 {
        lemma_fed_same(m, c, a, b, (n - 1) as nat);
    }
}

/// Caches that `ids` filled, and the logits of the last of them.
#[verifier::opaque]
spec fn caught_up<T: Float>(
    model: Model<T>,
    ids: Seq<usize>,
    cache: KVCache<T>,
    logits: Seq<T>,
) -> bool {
    &&& ids_below(ids, model.config.vocab_size)
    &&& cache.seq_pos == ids.len()
    &&& cache.fits(model, ids.len() as int)
    &&& logits.len() == if ids.len() == 0 {
        0
    } else {
        model.config.vocab_size as int
    }
    &&& deterministic::<T>() ==> {
        &&& cache@ == fed(model@, model.config, ids, ids.len())
        &&& logits == fed_logits(model@, model.config, ids)
    }
}

/// Feeds ids one by one to fresh caches; gives those and the logits of the last id.
fn feed<T: Float>(model: &Model<T>, ids: &[usize]) -> (r: (KVCache<T>, Vec<T>))
    requires
        model.shaped(),
        model.config.head_dim % 2 == 0,
        ids_below(ids@, model.config.vocab_size),
    ensures
        caught_up(*model, ids@, r.0, r.1@),
{
    let ghost m = model@;
    let ghost c = model.config;
    let mut cache = KVCache::new(model);
    let mut logits: Vec<T> = Vec::new();
    let mut i: usize = 0;
    proof {
        reveal(caught_up);
        assert(logits@ =~= seq![]);
    }
    while i < ids.len()
        invariant
            i <= ids@.len(),
            m == model@,
            c == model.config,
            model.shaped(),
            model.config.head_dim % 2 == 0,
            ids_below(ids@, model.config.vocab_size),
            caught_up(*model, ids@.take(i as int), cache, logits@),
        decreases ids@.len() - i,
    {
        proof {
            reveal(caught_up);
        }
        logits = forward_step(model, ids[i], i, &mut cache);
        i += 1;
        proof {
            let now = ids@.take(i as int);
            assert(now[i - 1] == ids@[i - 1]);
            if deterministic::<T>() {
                lemma_fed_same(m, c, ids@.take(i - 1), now, (i - 1) as nat);
            }
        }
    }
    proof {
        assert(ids@.take(i as int) =~= ids@);
    }
    (cache, logits)
}

/// Picks the next token, appends it and feeds it to the model. Once the caches hold as
/// many rows as the model sees, the oldest id leaves and the others are fed afresh, so
/// that positions stay below the longest context.
fn extend_by_one<T: Float>(
    model: &Model<T>,
    ids: &mut Vec<usize>,
    cache: KVCache<T>,
    logits: Vec<T>,
    mode: &SamplingMode<T>,
    rng: &mut Lcg,
) -> (r: (KVCache<T>, Vec<T>))
    requires
        model.shaped(),
        model.config.head_dim % 2 == 0,
        model.config.vocab_size > 0,
        model.config.max_seq_len > 0,
        old(ids)@.len() > 0 || mode is Greedy,
        ids_below(old(ids)@, model.config.vocab_size),
        caught_up(
            *model,
            context_of(old(ids)@, model.config.max_seq_len as nat),
            cache,
            logits@,
        ),
    ensures
        final(ids)@.len() == old(ids)@.len() + 1,
        old(ids)@.is_prefix_of(final(ids)@),
        ids_below(final(ids)@, model.config.vocab_size),
        caught_up(
            *model,
            context_of(final(ids)@, model.config.max_seq_len as nat),
            r.0,
            r.1@,
        ),
        final(rng).state == state_after(
            *mode,
            model.config.vocab_size as nat,
            old(rng).state,
        ),
        deterministic::<T>() ==> final(ids)@ == old(ids)@.push(
            cached_next(
                model@,
                model.config,
                old(ids)@,
                *mode,
                unit_of::<T>(final(rng).state),
            ),
        ),
{
    let max_len: usize = model.config.max_seq_len;
    let ghost held = ids@;
    let ghost seen = context_of(held, max_len as nat);
    proof {
        reveal(caught_up);
    }
    let next: usize = sample_from_logits(logits.as_slice(), mode, rng);
    ids.push(next);
    proof {
        assert(ids@.len() == ids.len());
    }
    let ghost now = context_of(ids@, max_len as nat);
    let mut cache = cache;
    let pos: usize = cache.seq_pos;
    if pos < max_len {
        let r = forward_step(model, next, pos, &mut cache);
        proof {
            assert(seen == held && now == ids@);
            if deterministic::<T>() {
                lemma_fed_same(model@, model.config, held, now, held.len());
            }
        }
        (cache, r)
    } else {
        let context = slice_subrange(ids.as_slice(), ids.len() - max_len, ids.len());
        proof {
            assert(context@ =~= now);
        }
        feed(model, context)
    }
}

/// The ids of a prompt and of the tokens generated after it, with cached keys and values.
fn extend_cached<T: Float>(
    model: &Model<T>,
    ids: &mut Vec<usize>,
    max_new_tokens: usize,
    mode: &SamplingMode<T>,
    rng: &mut Lcg,
)
    requires
        model.shaped(),
        model.config.head_dim % 2 == 0,
        model.config.vocab_size > 0,
        model.config.max_seq_len > 0,
        old(ids)@.len() > 0 || max_new_tokens == 0 || mode is Greedy,
        ids_below(old(ids)@, model.config.vocab_size),
    ensures
        final(ids)@.len() == old(ids)@.len() + max_new_tokens,
        old(ids)@.is_prefix_of(final(ids)@),
        ids_below(final(ids)@, model.config.vocab_size),
        final(rng).state == states_after(
            *mode,
            model.config.vocab_size as nat,
            old(rng).state,
            max_new_tokens as nat,
        ),
        deterministic::<T>() ==> (final(ids)@, final(rng).state) == cached_generated(
            model@,
            model.config,
            old(ids)@,
            *mode,
            old(rng).state,
            max_new_tokens as nat,
        ),
{
    let ghost start = ids@;
    let ghost seed = rng.state;
    let max_len: usize = model.config.max_seq_len;
    let skipped: usize = if ids.len() > max_len {
        ids.len() - max_len
    } else {
        0
    };
    let context = slice_subrange(ids.as_slice(), skipped, ids.len());
    proof {
        assert(context@ =~= context_of(start, max_len as nat));
    }
    let (mut cache, mut last_logits) = feed(model, context);
    let mut n: usize = 0;
    while n < max_new_tokens
        invariant
            n <= max_new_tokens,
            max_len == model.config.max_seq_len,
            model.shaped(),
            model.config.head_dim % 2 == 0,
            model.config.vocab_size > 0,
            model.config.max_seq_len > 0,
            start.len() > 0 || mode is Greedy || max_new_tokens == 0,
            ids@.len() == start.len() + n,
            start.is_prefix_of(ids@),
            ids_below(ids@, model.config.vocab_size),
            caught_up(*model, context_of(ids@, max_len as nat), cache, last_logits@),
            rng.state == states_after(*mode, model.config.vocab_size as nat, seed, n as nat),
            deterministic::<T>() ==> (ids@, rng.state) == cached_generated(
                model@,
                model.config,
                start,
                *mode,
                seed,
                n as nat,
            ),
        decreases max_new_tokens - n,
    {
        let fed = extend_by_one(model, ids, cache, last_logits, mode, rng);
        cache = fed.0;
        last_logits = fed.1;
        n += 1;
    }
}

/// The prompt continued by `max_new_tokens` tokens picked in a mode, with
/// cached keys and values. Where arithmetic has no rounding the text is that of the
/// pass over the whole context.
pub fn generate_with_cache<T: Float>(
    model: &Model<T>,
    vocab: &Vocab,
    prompt: &str,
    max_new_tokens: usize,
    mode: SamplingMode<T>,
    rng: &mut Lcg,
) -> (r: String)
    requires
        model.shaped(),
        model.config.head_dim % 2 == 0,
        model.config.vocab_size > 0,
        model.config.max_seq_len > 0,
        vocab.wf(),
        vocab.covers(prompt@),
        prompt@.len() > 0 || max_new_tokens == 0 || mode is Greedy,
        ids_below(vocab.encoded(prompt@), model.config.vocab_size),
        model.config.vocab_size <= vocab.id_to_char@.len(),
    ensures
        r@.len() == prompt@.len() + max_new_tokens,
        prompt@.is_prefix_of(r@),
        vocab.covers(r@),
        final(rng).state == states_after(
            mode,
            model.config.vocab_size as nat,
            old(rng).state,
            max_new_tokens as nat,
        ),
        deterministic::<T>() ==> ({
            let g = cached_generated(
                model@,
                model.config,
                vocab.encoded(prompt@),
                mode,
                old(rng).state,
                max_new_tokens as nat,
            );
            r@ == vocab.decoded(g.0) && final(rng).state == g.1
        }),
        deterministic::<T>() && drift_free::<T>() && can_generate(*model) && (prompt@.len() > 0
            || max_new_tokens == 0) ==> ({
            let g = generated(
                model@,
                model.config,
                vocab.encoded(prompt@),
                mode,
                old(rng).state,
                max_new_tokens as nat,
            );
            r@ == vocab.decoded(g.0) && final(rng).state == g.1
        }),
{
    let mut ids: Vec<usize> = vocab.encode(prompt);
    let ghost start = ids@;
    let ghost seed = rng.state;
    extend_cached(model, &mut ids, max_new_tokens, &mode, rng);
    let r = vocab.decode(ids.as_slice());
    proof {
        crate::data::law_vocab_round_trip(vocab, prompt@);
        crate::data::law_vocab_ids_round_trip(vocab, ids@);
        assert forall|i: int| 0 <= i < prompt@.len() implies prompt@[i] == r@[i] by {
            assert(start[i] == ids@[i]);
            assert(vocab.decoded(start)[i] == prompt@[i]);
        }
        if drift_free::<T>() && can_generate(*model) && (start.len() > 0 || max_new_tokens == 0) {
            law_cache_changes_nothing(*model, start, mode, seed, max_new_tokens as nat);
        }
    }
    r
}

} // verus!
